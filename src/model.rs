use vstd::prelude::*;

use crate::order::{
    compare_keys, has_key, key_less, keys_increasing, lemma_key_less_irreflexive,
    lemma_key_less_total, lemma_key_less_transitive, position,
};

verus! {

/// The metadata of one declared input parameter. Every field is optional.
pub struct Input {
    pub default: Option<String>,
    pub description: Option<String>,
    pub options: Option<Vec<String>>,
    /// The free-form type tag, written `type` in the source document.
    pub type_t: Option<String>,
}

/// The `spec` section of a component: its inputs, each under its name. In a
/// well-formed spec the names are unique and in increasing order.
pub struct Spec {
    pub inputs: Vec<(String, Input)>,
}

impl Spec {
    /// The input names are unique and increase strictly.
    pub open spec fn wf(&self) -> bool {
        keys_increasing(self.inputs@)
    }

    /// A spec without inputs.
    pub fn new() -> (r: Spec)
        ensures
            r.wf(),
            r.inputs@.len() == 0,
    {
        Spec { inputs: Vec::new() }
    }

    /// Declares `input` under `name`, replacing an input of the same name and
    /// keeping the others.
        pub fn insert_input(&mut self, name: String, input: Input)
        requires
            old(self).wf(),
        ensures
            final(self).wf(),
            has_key(final(self).inputs@, name@),
            forall|i: int|
                0 <= i < final(self).inputs@.len() && (#[trigger] final(self).inputs@[i]).0@
                    == name@ ==> final(self).inputs@[i].1 == input,
            forall|x: (String, Input)|
                #![trigger final(self).inputs@.contains(x)]
                #![trigger old(self).inputs@.contains(x)]
                x.0@ != name@ ==> (final(self).inputs@.contains(x) <==> old(self).inputs@.contains(x)),
    {
        let i = position(&self.inputs, name.as_str());
        let ghost k = name@;
        let ghost old_e = self.inputs@;
        proof {
            lemma_key_less_irreflexive(k);
        }
        if i < self.inputs.len() && compare_keys(self.inputs[i].0.as_str(), name.as_str()) == 0 {
            self.inputs.set(i, (name, input));
            proof {
                let e = self.inputs@;
                assert forall|j: int| 0 <= j < e.len() && j != i implies e[j] == old_e[j]
                    && #[trigger] e[j].0@ != k by {
                    if j < i {
                        assert(key_less(old_e[j].0@, old_e[i as int].0@));
                    } else {
                        assert(key_less(old_e[i as int].0@, old_e[j].0@));
                    }
                }
                assert forall|a: int, b: int| 0 <= a < b < e.len() implies key_less(
                    #[trigger] e[a].0@,
                    #[trigger] e[b].0@,
                ) by {
                    assert(old_e[a].0@ == e[a].0@);
                    assert(old_e[b].0@ == e[b].0@);
                }
                assert(e[i as int].0@ == k);
                assert forall|x: (String, Input)| #[trigger] e.contains(x) && x.0@ != k implies old_e.contains(
                    x,
                ) by {
                    let j = choose|j: int| 0 <= j < e.len() && e[j] == x;
                    assert(old_e[j] == x);
                }
                assert forall|x: (String, Input)| #[trigger] old_e.contains(x) && x.0@ != k implies e.contains(
                    x,
                ) by {
                    let j = choose|j: int| 0 <= j < old_e.len() && old_e[j] == x;
                    assert(e[j] == x);
                }
            }
        } else {
            proof {
                if i < old_e.len() {
                    lemma_key_less_total(old_e[i as int].0@, k);
                }
                assert forall|j: int| i <= j < old_e.len() implies key_less(
                    k,
                    #[trigger] old_e[j].0@,
                ) by {
                    if j > i {
                        lemma_key_less_transitive(k, old_e[i as int].0@, old_e[j].0@);
                    }
                }
            }
            self.inputs.insert(i, (name, input));
            proof {
                let e = self.inputs@;
                assert forall|j: int| 0 <= j < e.len() && j != i implies #[trigger] e[j].0@ != k
                    && e[j] == (if j < i { old_e[j] } else { old_e[j - 1] }) by {
                    if j < i {
                        assert(key_less(old_e[j].0@, k));
                    } else {
                        assert(key_less(k, old_e[j - 1].0@));
                    }
                }
                assert forall|a: int, b: int| 0 <= a < b < e.len() implies key_less(
                    #[trigger] e[a].0@,
                    #[trigger] e[b].0@,
                ) by {
                    if a < i && b > i {
                        assert(key_less(old_e[a].0@, old_e[b - 1].0@));
                    } else if a < i && b < i {
                        assert(key_less(old_e[a].0@, old_e[b].0@));
                    } else if a > i {
                        assert(key_less(old_e[a - 1].0@, old_e[b - 1].0@));
                    } else if a == i {
                        assert(key_less(k, old_e[b - 1].0@));
                    } else {
                        assert(key_less(old_e[a].0@, k));
                    }
                }
                assert(e[i as int].0@ == k);
                assert forall|x: (String, Input)| #[trigger] e.contains(x) && x.0@ != k implies old_e.contains(
                    x,
                ) by {
                    let j = choose|j: int| 0 <= j < e.len() && e[j] == x;
                    if j < i {
                        assert(old_e[j] == x);
                    } else {
                        assert(old_e[j - 1] == x);
                    }
                }
                assert forall|x: (String, Input)| #[trigger] old_e.contains(x) && x.0@ != k implies e.contains(
                    x,
                ) by {
                    let j = choose|j: int| 0 <= j < old_e.len() && old_e[j] == x;
                    if j < i {
                        assert(e[j] == x);
                    } else {
                        assert(e[j + 1] == x);
                    }
                }
            }
        }
    }
}

/// One successfully interpreted component document.
pub struct Components {
    pub spec: Spec,
}

/// The outcome of loading one catalog entry.
pub enum LoadingResult {
    /// The first document of the expected shape.
    Success(Components),
    /// No document had the expected shape: one diagnostic per document tried,
    /// in document order.
    Failed(Vec<String>),
}

/// The mathematical value of a [`LoadingResult`].
pub enum Outcome {
    Loaded(Components),
    Rejected(Seq<Seq<char>>),
}

pub open spec fn diagnostics_view(d: Seq<String>) -> Seq<Seq<char>> {
    d.map_values(|s: String| s@)
}

impl View for LoadingResult {
    type V = Outcome;

    open spec fn view(&self) -> Outcome {
        match self {
            LoadingResult::Success(c) => Outcome::Loaded(*c),
            LoadingResult::Failed(d) => Outcome::Rejected(diagnostics_view(d@)),
        }
    }
}

impl LoadingResult {
    /// Whether the entry was loaded.
    pub fn is_success(&self) -> (r: bool)
        ensures
            r == (self@ is Loaded),
    {
        match self {
            LoadingResult::Success(_) => true,
            LoadingResult::Failed(_) => false,
        }
    }
}

} // verus!
