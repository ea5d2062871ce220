use vstd::prelude::*;
use crate::text::push_str;
use crate::world::World;

verus! {

/// The names of the first `n` stages, each in double quotes, separated by commas.
pub open spec fn quoted_names(stages: Seq<Stage>, n: int) -> Seq<char>
    decreases n,
{
    if n <= 0 {
        Seq::empty()
    } else if n == 1 {
        "\""@ + stages[0].name@ + "\""@
    } else {
        quoted_names(stages, n - 1) + ",\""@ + stages[n - 1].name@ + "\""@
    }
}

/// A callable system that operates on the world. Running a system keeps a
/// well-formed world well formed.
pub trait System: Send + Sync {
    fn name(&self) -> &str;

    /// What one run of this system does to the world, from `before` to
    /// `after`; a system that does not say promises nothing beyond keeping
    /// the world well formed.
    open spec fn spec_run(&self, before: World, after: World) -> bool {
        true
    }

    fn run(&self, world: &mut World)
        requires
            old(world).wf(),
        ensures
            final(world).wf(),
            self.spec_run(*old(world), *final(world)),
    ;
}

/// A named group of systems, run in insertion order.
pub struct Stage {
    pub name: String,
    pub systems: Vec<Box<dyn System>>,
}

impl Stage {
    /// An empty stage called `name`.
    pub fn new(name: &str) -> (r: Self)
        ensures
            r.name@ == name@,
            r.systems@.len() == 0,
    {
        Stage { name: name.to_owned(), systems: Vec::new() }
    }

    /// Append `system` to this stage.
    pub fn add_system<S: System + 'static>(&mut self, system: S)
        ensures
            final(self).name == old(self).name,
            final(self).systems@.len() == old(self).systems@.len() + 1,
            forall|i: int| 0 <= i < old(self).systems@.len() ==> #[trigger] final(self).systems@[i] == old(self).systems@[i],
    {
        let b: Box<dyn System> = Box::new(system);
        let ghost before = self.systems@;
        self.systems.push(b);
        proof {
            vstd::seq::axiom_seq_push_len(before, b);
            assert forall|i: int| 0 <= i < before.len() implies #[trigger] self.systems@[i] == before[i] by {
                vstd::seq::axiom_seq_push_index_different(before, b, i);
            }
        }
    }
}

/// The stages' names, in order.
pub open spec fn stage_names_of(stages: Seq<Stage>) -> Seq<Seq<char>> {
    stages.map_values(|s: Stage| s.name@)
}

/// The number of systems in the first `n` stages.
pub open spec fn systems_total(stages: Seq<Stage>, n: int) -> nat
    decreases n,
{
    if n <= 0 {
        0
    } else {
        systems_total(stages, n - 1) + stages[n - 1].systems@.len()
    }
}

/// The systems of the first `n` stages, stage by stage, each stage's in
/// insertion order: the order in which `Schedule::run` calls them.
pub open spec fn schedule_order(stages: Seq<Stage>, n: int) -> Seq<Box<dyn System>>
    decreases n,
{
    if n <= 0 {
        Seq::empty()
    } else {
        schedule_order(stages, n - 1) + stages[n - 1].systems@
    }
}

/// `ws` records running `sys` one after another: system `k` took the world
/// from `ws[k]` to `ws[k + 1]`.
pub open spec fn ran_in_order(sys: Seq<Box<dyn System>>, ws: Seq<World>) -> bool {
    &&& ws.len() == sys.len() + 1
    &&& forall|k: int| 0 <= k < sys.len() ==> #[trigger] sys[k].spec_run(ws[k], ws[k + 1])
}

/// Running `a` and then `b` is running `a + b`.
proof fn lemma_ran_concat(a: Seq<Box<dyn System>>, wa: Seq<World>, b: Seq<Box<dyn System>>, wb: Seq<World>)
    requires
        ran_in_order(a, wa),
        ran_in_order(b, wb),
        wa.last() == wb[0],
    ensures
        ran_in_order(a + b, wa + wb.skip(1)),
        (wa + wb.skip(1))[0] == wa[0],
        (wa + wb.skip(1)).last() == wb.last(),
{
    let w = wa + wb.skip(1);
    assert forall|k: int| 0 <= k < (a + b).len() implies #[trigger] (a + b)[k].spec_run(w[k], w[k + 1]) by {
        if k < a.len() {
            assert((a + b)[k] == a[k]);
            if k + 1 < wa.len() {
                assert(w[k + 1] == wa[k + 1]);
            } else {
                assert(w[k + 1] == wb[0]);
            }
        } else {
            let j = k - a.len();
            assert((a + b)[k] == b[j]);
            if j == 0 {
                assert(w[k] == wa.last());
            } else {
                assert(w[k] == wb[j]);
            }
            assert(w[k + 1] == wb[j + 1]);
        }
    }
}

/// Stage order: system `k` of stage `i` is the run's system number
/// `systems_total(stages, i) + k`, so every system of an earlier stage runs
/// before every system of a later one, and a stage's systems run in insertion
/// order.
pub proof fn lemma_schedule_order_position(stages: Seq<Stage>, n: int, i: int, k: int)
    requires
        0 <= i < n <= stages.len(),
        0 <= k < stages[i].systems@.len(),
    ensures
        schedule_order(stages, n).len() == systems_total(stages, n),
        systems_total(stages, i) + k < systems_total(stages, i + 1) <= systems_total(stages, n),
        schedule_order(stages, n)[systems_total(stages, i) + k] == stages[i].systems@[k],
    decreases n,
{
    lemma_schedule_order_len(stages, n);
    lemma_systems_total_mono(stages, i + 1, n);
    if i < n - 1 {
        lemma_schedule_order_position(stages, n - 1, i, k);
        lemma_schedule_order_len(stages, n - 1);
    } else {
        lemma_schedule_order_len(stages, n - 1);
    }
}

proof fn lemma_schedule_order_len(stages: Seq<Stage>, n: int)
    ensures
        schedule_order(stages, n).len() == systems_total(stages, n),
    decreases n,
{
    if n > 0 {
        lemma_schedule_order_len(stages, n - 1);
    }
}

/// Adding one system to stage `i` (and changing no other stage's systems)
/// adds one to the total of every prefix that holds stage `i`.
proof fn lemma_systems_total_one_more(a: Seq<Stage>, b: Seq<Stage>, i: int, n: int)
    requires
        a.len() == b.len(),
        0 <= i < n <= a.len(),
        b[i].systems@.len() == a[i].systems@.len() + 1,
        forall|j: int| 0 <= j < a.len() && j != i ==> #[trigger] b[j].systems@.len() == a[j].systems@.len(),
    ensures
        systems_total(b, n) == systems_total(a, n) + 1,
    decreases n,
{
    if n - 1 > i {
        lemma_systems_total_one_more(a, b, i, n - 1);
        assert(b[n - 1].systems@.len() == a[n - 1].systems@.len());
    } else {
        lemma_systems_total_same(a, b, i);
    }
}

/// Prefixes of stages with the same system counts have the same total.
proof fn lemma_systems_total_same(a: Seq<Stage>, b: Seq<Stage>, n: int)
    requires
        0 <= n <= a.len(),
        n <= b.len(),
        forall|j: int| 0 <= j < n ==> #[trigger] b[j].systems@.len() == a[j].systems@.len(),
    ensures
        systems_total(b, n) == systems_total(a, n),
    decreases n,
{
    if n > 0 {
        lemma_systems_total_same(a, b, n - 1);
    }
}

proof fn lemma_systems_total_mono(stages: Seq<Stage>, i: int, n: int)
    requires
        i <= n,
    ensures
        systems_total(stages, i) <= systems_total(stages, n),
    decreases n - i,
{
    if i < n {
        lemma_systems_total_mono(stages, i, n - 1);
    }
}

/// Index of the first stage called `name`, if any.
pub open spec fn first_stage_named(stages: Seq<Stage>, name: Seq<char>) -> Option<int> {
    if exists|i: int| 0 <= i < stages.len() && (#[trigger] stages[i]).name@ == name {
        let i = choose|i: int|
            0 <= i < stages.len() && (#[trigger] stages[i]).name@ == name && forall|j: int| 0 <= j < i ==> stages[j].name@ != name;
        Some(i)
    } else {
        None
    }
}

/// Systems grouped into ordered stages.
pub struct Schedule {
    stages: Vec<Stage>,
}

impl Schedule {
    /// The stages, in execution order.
    pub closed spec fn spec_stages(&self) -> Seq<Stage> {
        self.stages@
    }

    /// An empty schedule.
    pub fn new() -> (r: Self)
        ensures
            r.spec_stages().len() == 0,
    {
        Schedule { stages: Vec::new() }
    }

    /// The twelve standard pipeline stages, in execution order, all empty.
    pub fn standard_game_schedule() -> (r: Self)
        ensures
            stage_names_of(r.spec_stages()) == seq![
                "Startup"@,
                "PreFrame"@,
                "Input"@,
                "PrePhysics"@,
                "Physics"@,
                "PostPhysics"@,
                "AI"@,
                "Gameplay"@,
                "Animation"@,
                "Audio"@,
                "Render"@,
                "PostFrame"@,
            ],
            forall|i: int| 0 <= i < r.spec_stages().len() ==> (#[trigger] r.spec_stages()[i]).systems@.len() == 0,
    {
        let mut schedule = Schedule::new();
        schedule.add_stage(Stage::new("Startup"));
        schedule.add_stage(Stage::new("PreFrame"));
        schedule.add_stage(Stage::new("Input"));
        schedule.add_stage(Stage::new("PrePhysics"));
        schedule.add_stage(Stage::new("Physics"));
        schedule.add_stage(Stage::new("PostPhysics"));
        schedule.add_stage(Stage::new("AI"));
        schedule.add_stage(Stage::new("Gameplay"));
        schedule.add_stage(Stage::new("Animation"));
        schedule.add_stage(Stage::new("Audio"));
        schedule.add_stage(Stage::new("Render"));
        schedule.add_stage(Stage::new("PostFrame"));
        proof {
            assert(stage_names_of(schedule.spec_stages()) =~= seq![
                "Startup"@,
                "PreFrame"@,
                "Input"@,
                "PrePhysics"@,
                "Physics"@,
                "PostPhysics"@,
                "AI"@,
                "Gameplay"@,
                "Animation"@,
                "Audio"@,
                "Render"@,
                "PostFrame"@,
            ]);
        }
        schedule
    }

    /// Append `stage` as the last stage.
    pub fn add_stage(&mut self, stage: Stage)
        ensures
            final(self).spec_stages() == old(self).spec_stages().push(stage),
    {
        self.stages.push(stage);
    }

    /// Index of the first stage called `name`, if any.
    fn find_stage(&self, name: &str) -> (r: Option<usize>)
        ensures
            match r {
                Some(i) => i < self.spec_stages().len() && first_stage_named(self.spec_stages(), name@) == Some(i as int),
                None => first_stage_named(self.spec_stages(), name@) is None,
            },
    {
        let target = name.to_owned();
        let mut i: usize = 0;
        while i < self.stages.len()
            invariant
                i <= self.stages@.len(),
                target@ == name@,
                forall|j: int| 0 <= j < i ==> (#[trigger] self.stages@[j]).name@ != name@,
            decreases self.stages@.len() - i,
        {
            if self.stages[i].name == target {
                proof {
                    let s = self.stages@;
                    assert(s[i as int].name@ == name@);
                    let k = choose|k: int|
                        0 <= k < s.len() && (#[trigger] s[k]).name@ == name@ && forall|j: int| 0 <= j < k ==> s[j].name@ != name@;
                    if k < i {
                    } else if k > i {
                        assert(s[i as int].name@ != name@);
                    }
                }
                return Some(i);
            }
            i = i + 1;
        }
        None
    }

    /// Add `system` to the first stage called `stage_name`; that stage must exist.
    pub fn add_system_to<S: System + 'static>(&mut self, stage_name: &str, system: S)
        requires
            first_stage_named(old(self).spec_stages(), stage_name@) is Some,
        ensures
            ({
                let i = first_stage_named(old(self).spec_stages(), stage_name@)->0;
                &&& final(self).spec_stages().len() == old(self).spec_stages().len()
                &&& forall|j: int| 0 <= j < old(self).spec_stages().len() && j != i ==> #[trigger] final(self).spec_stages()[j] == old(self).spec_stages()[j]
                &&& final(self).spec_stages()[i].name == old(self).spec_stages()[i].name
                &&& final(self).spec_stages()[i].systems@.len() == old(self).spec_stages()[i].systems@.len() + 1
                &&& forall|k: int|
                    0 <= k < old(self).spec_stages()[i].systems@.len() ==> #[trigger] final(self).spec_stages()[i].systems@[k]
                        == old(self).spec_stages()[i].systems@[k]
                &&& systems_total(final(self).spec_stages(), final(self).spec_stages().len() as int) == systems_total(
                    old(self).spec_stages(),
                    old(self).spec_stages().len() as int,
                ) + 1
            }),
    {
        let i = self.find_stage(stage_name).unwrap();
        let ghost before = self.stages@;
        self.stages[i].add_system(system);
        proof {
            lemma_systems_total_one_more(before, self.stages@, i as int, before.len() as int);
        }
    }

    /// The stage names, in order.
    pub fn stage_names(&self) -> (r: Vec<&str>)
        ensures
            r@.len() == self.spec_stages().len(),
            forall|i: int| 0 <= i < r@.len() ==> (#[trigger] r@[i])@ == self.spec_stages()[i].name@,
    {
        let mut out: Vec<&str> = Vec::new();
        let mut i: usize = 0;
        while i < self.stages.len()
            invariant
                i <= self.stages@.len(),
                out@.len() == i,
                forall|j: int| 0 <= j < i ==> (#[trigger] out@[j])@ == self.stages@[j].name@,
            decreases self.stages@.len() - i,
        {
            out.push(self.stages[i].name.as_str());
            i = i + 1;
        }
        out
    }

    /// The stage names, in order, as a JSON array of strings.
    pub fn stage_names_json(&self) -> (r: String)
        ensures
            r@ == "["@ + quoted_names(self.spec_stages(), self.spec_stages().len() as int) + "]"@,
    {
        let mut s = String::new();
        push_str(&mut s, "[");
        let mut i: usize = 0;
        while i < self.stages.len()
            invariant
                i <= self.stages@.len(),
                self.spec_stages() == self.stages@,
                s@ == "["@ + quoted_names(self.stages@, i as int),
            decreases self.stages@.len() - i,
        {
            if i > 0 {
                push_str(&mut s, ",\"");
            } else {
                push_str(&mut s, "\"");
            }
            push_str(&mut s, self.stages[i].name.as_str());
            push_str(&mut s, "\"");
            proof {
                assert(s@ =~= "["@ + quoted_names(self.stages@, i as int + 1));
            }
            i = i + 1;
        }
        push_str(&mut s, "]");
        s
    }

    /// Run the systems of `stage`, in order.
    fn run_systems(stage: &Stage, world: &mut World)
        requires
            old(world).wf(),
        ensures
            final(world).wf(),
            stage.systems@.len() == 0 ==> *final(world) == *old(world),
            exists|ws: Seq<World>|
                #[trigger] ran_in_order(stage.systems@, ws) && ws[0] == *old(world) && ws.last() == *final(world),
    {
        let ghost w0 = *world;
        let ghost mut ws: Seq<World> = seq![w0];
        let mut j: usize = 0;
        while j < stage.systems.len()
            invariant
                world.wf(),
                j <= stage.systems@.len(),
                stage.systems@.len() == 0 ==> *world == w0,
                ran_in_order(stage.systems@.take(j as int), ws),
                ws[0] == w0,
                ws.last() == *world,
            decreases stage.systems@.len() - j,
        {
            let ghost before = *world;
            stage.systems[j].run(world);
            proof {
                let ws0 = ws;
                ws = ws0.push(*world);
                let t = stage.systems@.take(j as int + 1);
                assert forall|k: int| 0 <= k < t.len() implies #[trigger] t[k].spec_run(ws[k], ws[k + 1]) by {
                    if k < j {
                        assert(t[k] == stage.systems@.take(j as int)[k]);
                        assert(ws[k] == ws0[k] && ws[k + 1] == ws0[k + 1]);
                    } else {
                        assert(t[k] == stage.systems@[j as int]);
                        assert(ws[k] == before);
                    }
                }
            }
            j = j + 1;
        }
        proof {
            assert(stage.systems@.take(stage.systems@.len() as int) =~= stage.systems@);
        }
    }

    /// Run every stage once, in order.
    pub fn run(&self, world: &mut World)
        requires
            old(world).wf(),
        ensures
            final(world).wf(),
            systems_total(self.spec_stages(), self.spec_stages().len() as int) == 0 ==> *final(world) == *old(world),
            exists|ws: Seq<World>|
                #[trigger] ran_in_order(schedule_order(self.spec_stages(), self.spec_stages().len() as int), ws) && ws[0]
                    == *old(world) && ws.last() == *final(world),
    {
        let ghost w0 = *world;
        let ghost mut ws: Seq<World> = seq![w0];
        let mut i: usize = 0;
        while i < self.stages.len()
            invariant
                world.wf(),
                i <= self.stages@.len(),
                self.spec_stages() == self.stages@,
                systems_total(self.stages@, self.stages@.len() as int) == 0 ==> *world == w0,
                ran_in_order(schedule_order(self.stages@, i as int), ws),
                ws[0] == w0,
                ws.last() == *world,
            decreases self.stages@.len() - i,
        {
            proof {
                lemma_systems_total_mono(self.stages@, i as int + 1, self.stages@.len() as int);
            }
            let ghost before = *world;
            Self::run_systems(&self.stages[i], world);
            proof {
                let wb = choose|wb: Seq<World>|
                    #[trigger] ran_in_order(self.stages@[i as int].systems@, wb) && wb[0] == before && wb.last() == *world;
                lemma_ran_concat(schedule_order(self.stages@, i as int), ws, self.stages@[i as int].systems@, wb);
                ws = ws + wb.skip(1);
            }
            i = i + 1;
        }
    }

    /// Run only the first stage called `stage_name`; nothing happens when
    /// there is no such stage.
    pub fn run_stage(&self, stage_name: &str, world: &mut World)
        requires
            old(world).wf(),
        ensures
            final(world).wf(),
            first_stage_named(self.spec_stages(), stage_name@) is None ==> *final(world) == *old(world),
            first_stage_named(self.spec_stages(), stage_name@) matches Some(i) && self.spec_stages()[i].systems@.len() == 0
                ==> *final(world) == *old(world),
            first_stage_named(self.spec_stages(), stage_name@) is Some ==> exists|ws: Seq<World>|
                #[trigger] ran_in_order(
                    self.spec_stages()[first_stage_named(self.spec_stages(), stage_name@)->0].systems@,
                    ws,
                ) && ws[0] == *old(world) && ws.last() == *final(world),
    {
        match self.find_stage(stage_name) {
            Some(i) => {
                let ghost before = *world;
                Self::run_systems(&self.stages[i], world);
                proof {
                    let wb = choose|wb: Seq<World>|
                        #[trigger] ran_in_order(self.stages@[i as int].systems@, wb) && wb[0] == before && wb.last() == *world;
                    assert(self.spec_stages()[i as int] == self.stages@[i as int]);
                    assert(ran_in_order(self.spec_stages()[i as int].systems@, wb));
                    assert(first_stage_named(self.spec_stages(), stage_name@) == Some(i as int));
                    assert(before == *old(world));
                    let fi = first_stage_named(self.spec_stages(), stage_name@)->0;
                    assert(fi == i as int);
                    assert(ran_in_order(self.spec_stages()[fi].systems@, wb) && wb[0] == *old(world) && wb.last() == *world);
                }
            },
            None => {},
        }
    }

    /// Total number of systems over all stages.
    pub fn system_count(&self) -> (r: usize)
        requires
            systems_total(self.spec_stages(), self.spec_stages().len() as int) <= usize::MAX,
        ensures
            r == systems_total(self.spec_stages(), self.spec_stages().len() as int),
    {
        let n = self.stages.len();
        let mut total: usize = 0;
        let mut i: usize = 0;
        while i < n
            invariant
                n == self.stages@.len(),
                i <= n,
                total == systems_total(self.stages@, i as int),
                systems_total(self.stages@, n as int) <= usize::MAX,
            decreases n - i,
        {
            proof {
                lemma_systems_total_mono(self.stages@, i as int + 1, n as int);
            }
            total = total + self.stages[i].systems.len();
            i = i + 1;
        }
        total
    }
}

impl Default for Schedule {
    /// An empty schedule.
    fn default() -> (r: Self)
        ensures
            r.spec_stages().len() == 0,
    {
        Self::new()
    }
}

} // verus!
