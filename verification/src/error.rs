use vstd::prelude::*;

verus! {

/// Errors reported by the world's operations.
#[derive(Debug, Clone, PartialEq)]
pub enum EcsError {
    ComponentNotRegistered(u32),
    ComponentAlreadyRegistered(String),
    EntityNotFound,
    ComponentNotFound(u32),
    ArchetypeNotFound,
    FieldCountMismatch { expected: usize, actual: usize },
    FieldTypeMismatch { index: usize },
    SystemNotFound(String),
    ResourceNotRegistered(u32),
    EventNotRegistered(u32),
}

pub type EcsResult<T> = Result<T, EcsError>;

} // verus!
