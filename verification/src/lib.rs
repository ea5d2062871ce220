pub mod archetype;
pub mod archetype_registry;
pub mod bitset;
pub mod command;
pub mod component;
pub mod component_builder;
pub mod component_column;
pub mod component_instance;
pub mod component_registry;
pub mod component_value;
pub mod constants;
pub mod entity;
pub mod error;
pub mod event;
pub mod field_column;
pub mod location;
pub mod maps;
pub mod properties;
pub mod query;
pub mod query_mut;
pub mod query_view;
pub mod resource;
pub mod system;
pub mod rng;
pub mod text;
pub mod view;
pub mod world;
pub mod world_query;
pub mod world_access;
pub mod world_raw;
pub mod field_list;

pub use archetype::{Archetype, Chunk, Column};
pub use archetype_registry::ArchetypeRegistry;
pub use bitset::ComponentMask;
pub use command::CommandBuffer;
pub use component::{ComponentSchema, FieldSchema, FieldType};
pub use component_builder::ComponentBuilder;
pub use component_column::ComponentColumn;
pub use component_instance::ComponentInstance;
pub use component_registry::ComponentRegistry;
pub use component_value::ComponentValue;
pub use constants::{CHUNK_CAPACITY, MAX_COMPONENTS};
pub use entity::{Entity, EntityManager};
pub use error::{EcsError, EcsResult};
pub use event::Events;
pub use field_column::FieldColumn;
pub use location::EntityLocation;
pub use query::{QueryChunk, QueryResult, QueryRow};
pub use query_mut::QueryRowMut;
pub use query_view::ColumnView;
pub use resource::Resources;
pub use system::{Schedule, Stage, System};
pub use rng::Rng;
pub use view::{F32x2View, F32x2ViewMut, F32x3View};
pub use world::World;
