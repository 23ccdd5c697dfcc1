//! The path a weight is addressed by.
//!
//! A checkpoint names its tensors with dot-separated segments, and a loader walks that naming one
//! segment at a time. The joining rule belongs to the names, not to what is stored under them, and
//! there is exactly one way to spell a name.
use vstd::prelude::*;
use vstd::string::StringExecFns;

verus! {

/// A dot-joined tensor path, empty at the root.
#[derive(Clone, Debug)]
pub struct Prefix {
    spelling: String,
}

/// `name` under `prefix`: the two joined by a dot, or `name` bare at the root.
pub open spec fn joined(prefix: Seq<char>, name: Seq<char>) -> Seq<char> {
    if prefix.len() == 0 {
        name
    } else {
        prefix + seq!['.'] + name
    }
}

impl View for Prefix {
    type V = Seq<char>;

    closed spec fn view(&self) -> Seq<char> {
        self.spelling@
    }
}

impl Prefix {
    /// The root of a checkpoint: nothing to prepend.
    pub fn root() -> (p: Prefix)
        ensures
            p@ == Seq::<char>::empty(),
    {
        Prefix { spelling: String::new() }
    }

    /// The full name of a leaf under this prefix. At the root that is the leaf name itself, never
    /// a leading dot.
    pub fn path(&self, name: &str) -> (r: String)
        ensures
            r@ == joined(self@, name@),
    {
        if self.spelling.as_str().is_empty() {
            name.to_owned()
        } else {
            let mut r = self.spelling.clone();
            r.append(".");
            r.append(name);
            proof {
                reveal_strlit(".");
                assert("."@ =~= seq!['.']);
            }
            r
        }
    }

    /// Descend one segment. Naming a submodule and naming a tensor are the same concatenation.
    pub fn join(&self, segment: &str) -> (p: Prefix)
        ensures
            p@ == joined(self@, segment@),
    {
        Prefix { spelling: self.path(segment) }
    }

    /// This prefix as the checkpoint spells it.
    pub fn as_str(&self) -> (s: &str)
        ensures
            s@ == self@,
    {
        self.spelling.as_str()
    }
}

/// At the root a leaf keeps its bare name.
pub proof fn root_adds_nothing(name: Seq<char>)
    ensures
        joined(Seq::<char>::empty(), name) == name,
{
}

/// Descending by segments and naming a leaf spells the same path as naming the dotted leaf at
/// once: however the walk is split, there is one spelling.
pub proof fn joins_compose(prefix: Seq<char>, a: Seq<char>, b: Seq<char>)
    requires
        a.len() > 0,
    ensures
        joined(joined(prefix, a), b) == joined(prefix, joined(a, b)),
{
    if prefix.len() > 0 {
        assert(joined(joined(prefix, a), b) =~= prefix + seq!['.'] + (a + seq!['.'] + b));
    }
}

/// A path starts with a dot only where the name at its root does.
pub proof fn no_leading_dot(prefix: Seq<char>, name: Seq<char>)
    requires
        joined(prefix, name).len() > 0,
        joined(prefix, name)[0] == '.',
    ensures
        prefix.len() > 0 ==> prefix[0] == '.',
        prefix.len() == 0 ==> name[0] == '.',
{
}

} // verus!
