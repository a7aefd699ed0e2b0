use vstd::prelude::*;

verus! {

/// What the workload compiler reads of a system: its group, its id, and the ids it must
/// run after and before.
pub struct SystemSpec {
    pub group: Seq<char>,
    pub id: Seq<char>,
    pub run_after: Seq<Seq<char>>,
    pub run_before: Seq<Seq<char>>,
}

/// A system declared by an extension or by the host. The callable that runs it is kept
/// by the host, keyed by where the descriptor sits in the registry.
#[derive(Debug)]
pub struct ExtensionSystem {
    pub group: String,
    pub id: String,
    pub run_after: Vec<String>,
    pub run_before: Vec<String>,
}

impl View for ExtensionSystem {
    type V = SystemSpec;

    open spec fn view(&self) -> SystemSpec {
        SystemSpec {
            group: self.group@,
            id: self.id@,
            run_after: self.run_after.deep_view(),
            run_before: self.run_before.deep_view(),
        }
    }
}

impl ExtensionSystem {
    /// A system of `group` named `id`, with no ordering constraints yet.
    pub fn new(group: &str, id: &str) -> (r: Self)
        ensures
            r@.group == group@,
            r@.id == id@,
            r@.run_after.len() == 0,
            r@.run_before.len() == 0,
    {
        let s = ExtensionSystem {
            group: group.to_owned(),
            id: id.to_owned(),
            run_after: Vec::new(),
            run_before: Vec::new(),
        };
        assert(s.run_after.deep_view() =~= Seq::<Seq<char>>::empty());
        assert(s.run_before.deep_view() =~= Seq::<Seq<char>>::empty());
        s
    }

    /// Requires this system to run after the system `id`.
    pub fn run_after(&mut self, id: &str) -> (r: &mut Self)
        ensures
            r@ == (SystemSpec { run_after: old(self)@.run_after.push(id@), ..old(self)@ }),
            *final(self) == *final(r),
    {
        self.run_after.push(id.to_owned());
        assert(self.run_after.deep_view() =~= old(self)@.run_after.push(id@));
        self
    }

    /// Requires this system to run before the system `id`.
    pub fn run_before(&mut self, id: &str) -> (r: &mut Self)
        ensures
            r@ == (SystemSpec { run_before: old(self)@.run_before.push(id@), ..old(self)@ }),
            *final(self) == *final(r),
    {
        self.run_before.push(id.to_owned());
        assert(self.run_before.deep_view() =~= old(self)@.run_before.push(id@));
        self
    }
}

/// Whether `v` holds the string `x`.
pub fn contains_string(v: &Vec<String>, x: &String) -> (r: bool)
    ensures
        r == v.deep_view().contains(x@),
{
    let mut i: usize = 0;
    while i < v.len()
        invariant
            i <= v.len(),
            forall|j: int| 0 <= j < i ==> v.deep_view()[j] != x@,
        decreases v.len() - i,
    {
        if v[i] == *x {
            assert(v.deep_view()[i as int] == x@);
            return true;
        }
        i = i + 1;
    }
    proof {
        if v.deep_view().contains(x@) {
            let j = choose|j: int| 0 <= j < v.deep_view().len() && v.deep_view()[j] == x@;
            assert(false);
        }
    }
    false
}

} // verus!
