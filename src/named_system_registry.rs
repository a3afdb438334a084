//! The named-function table: name to declared input and output type, with
//! check-out of an entry for the duration of each call.
use vstd::prelude::*;
use crate::error::{ErrView, HTMLSceneSpawnError};
use crate::graph::Graph;
use crate::instance::Instance;
use crate::scene::Element;

verus! {

/// A registered function: its name, the type names of its input and output,
/// and whether a call of it is under way.
pub struct FunctionEntry {
    pub name: String,
    pub input: String,
    pub output: String,
    pub checked_out: bool,
}

/// Where two entries share a name the later one is found.
pub struct NamedSystemRegistry {
    entries: Vec<FunctionEntry>,
}

/// What runs the registered functions: user code that may read and change its
/// own state and may call further functions through the table it is handed.
pub trait Host {
    fn run(&mut self, functions: &mut NamedSystemRegistry, name: &String, input: Instance) -> Instance;

    /// Runs the document function registered as `name`; it sees the graph as it stands.
    fn render(&mut self, functions: &mut NamedSystemRegistry, name: &String, graph: &Graph) -> Element;
}

/// Index of the last entry named `name`.
pub open spec fn find_fn_index(s: Seq<FunctionEntry>, name: Seq<char>) -> Option<int>
    decreases s.len(),
{
    if s.len() == 0 {
        None
    } else if s.last().name@ == name {
        Some(s.len() - 1)
    } else {
        find_fn_index(s.drop_last(), name)
    }
}

pub open spec fn find_fn(s: Seq<FunctionEntry>, name: Seq<char>) -> Option<FunctionEntry> {
    match find_fn_index(s, name) {
        Some(i) => Some(s[i]),
        None => None,
    }
}

/// Why a call of `name` with an input of type `input_ty` cannot start, if it cannot.
/// A function whose entry is checked out is absent from the table meanwhile.
pub open spec fn call_refusal(s: Seq<FunctionEntry>, name: Seq<char>, input_ty: Seq<char>) -> Option<
    ErrView,
> {
    match find_fn(s, name) {
        None => Some(ErrView::UnknownFunction(name)),
        Some(e) => if e.checked_out {
            Some(ErrView::UnknownFunction(name))
        } else if e.input@ != input_ty {
            Some(ErrView::TypeMismatch(name, e.input@, input_ty))
        } else {
            None
        },
    }
}

pub proof fn lemma_find_fn_index(s: Seq<FunctionEntry>, name: Seq<char>)
    ensures
        match find_fn_index(s, name) {
            Some(i) => 0 <= i < s.len() && s[i].name@ == name,
            None => true,
        },
    decreases s.len(),
{
    if s.len() > 0 {
        lemma_find_fn_index(s.drop_last(), name);
    }
}

impl NamedSystemRegistry {
    pub closed spec fn entries(&self) -> Seq<FunctionEntry> {
        self.entries@
    }

    pub fn new() -> (r: NamedSystemRegistry)
        ensures
            r.entries().len() == 0,
    {
        NamedSystemRegistry { entries: Vec::new() }
    }

    /// Registers `name`; a later registration of the same name wins.
    pub fn register(&mut self, name: String, input: String, output: String)
        ensures
            final(self).entries() == old(self).entries().push(
                FunctionEntry { name, input, output, checked_out: false },
            ),
    {
        self.entries.push(FunctionEntry { name, input, output, checked_out: false });
    }

    pub fn lookup_index(&self, name: &String) -> (r: Option<usize>)
        ensures
            match r {
                Some(i) => find_fn_index(self.entries(), name@) == Some(i as int),
                None => find_fn_index(self.entries(), name@) is None,
            },
    {
        let mut k = self.entries.len();
        proof {
            assert(self.entries@.subrange(0, self.entries@.len() as int) =~= self.entries@);
        }
        while k > 0
            invariant
                k <= self.entries@.len(),
                find_fn_index(self.entries@, name@) == find_fn_index(
                    self.entries@.subrange(0, k as int),
                    name@,
                ),
            decreases k,
        {
            proof {
                let s = self.entries@.subrange(0, k as int);
                assert(s.drop_last() =~= self.entries@.subrange(0, k - 1));
            }
            if self.entries[k - 1].name == *name {
                return Some(k - 1);
            }
            k = k - 1;
        }
        None
    }

    /// The declared input and output type names of `name`.
    pub fn get_type_ids(&self, name: &String) -> (r: Option<(String, String)>)
        ensures
            match find_fn(self.entries(), name@) {
                Some(e) => r matches Some((i, o)) && i@ == e.input@ && o@ == e.output@,
                None => r is None,
            },
    {
        match self.lookup_index(name) {
            Some(i) => {
                proof {
                    lemma_find_fn_index(self.entries@, name@);
                }
                Some((self.entries[i].input.clone(), self.entries[i].output.clone()))
            },
            None => None,
        }
    }

    /// Takes the entry of `name` out of the table for a call with an input of
    /// type `input_ty`, after checking that type against the declared one.
    fn check_out(&mut self, name: &String, input_ty: &String) -> (r: Result<usize, HTMLSceneSpawnError>)
        ensures
            match r {
                Ok(i) => {
                    &&& call_refusal(old(self).entries(), name@, input_ty@) is None
                    &&& find_fn_index(old(self).entries(), name@) == Some(i as int)
                    &&& final(self).entries() == old(self).entries().update(
                        i as int,
                        FunctionEntry { checked_out: true, ..old(self).entries()[i as int] },
                    )
                },
                Err(e) => {
                    &&& call_refusal(old(self).entries(), name@, input_ty@) == Some(e@)
                    &&& final(self).entries() == old(self).entries()
                },
            },
    {
        proof {
            lemma_find_fn_index(self.entries@, name@);
        }
        match self.lookup_index(name) {
            None => Err(HTMLSceneSpawnError::UnknownFunction(name.clone())),
            Some(i) => {
                if self.entries[i].checked_out {
                    return Err(HTMLSceneSpawnError::UnknownFunction(name.clone()));
                }
                if self.entries[i].input != *input_ty {
                    return Err(
                        HTMLSceneSpawnError::TypeMismatch(
                            name.clone(),
                            self.entries[i].input.clone(),
                            input_ty.clone(),
                        ),
                    );
                }
                let mut e = self.entries.remove(i);
                e.checked_out = true;
                self.entries.insert(i, e);
                Ok(i)
            },
        }
    }

    /// Puts entry `i` back after its call.
    fn check_in(&mut self, i: usize)
        ensures
            i < old(self).entries().len() ==> final(self).entries() == old(self).entries().update(
                i as int,
                FunctionEntry { checked_out: false, ..old(self).entries()[i as int] },
            ),
            i >= old(self).entries().len() ==> final(self).entries() == old(self).entries(),
    {
        if i < self.entries.len() {
            let mut e = self.entries.remove(i);
            e.checked_out = false;
            self.entries.insert(i, e);
        }
    }

    /// Calls `name` on an input of type `input_ty`. The entry is checked out
    /// while the function runs, so that the function cannot reach itself by
    /// name, and checked back in afterwards.
    pub fn call_reflect<H: Host>(
        &mut self,
        host: &mut H,
        name: &String,
        input_ty: &String,
        input: Instance,
    ) -> (r: Result<Instance, HTMLSceneSpawnError>)
        ensures
            match call_refusal(old(self).entries(), name@, input_ty@) {
                Some(e) => r matches Err(x) && x@ == e && final(self).entries() == old(
                    self,
                ).entries(),
                None => r is Ok && checked_in_after(old(self).entries(), final(self).entries(), name@),
            },
    {
        let i = match self.check_out(name, input_ty) {
            Ok(i) => i,
            Err(e) => {
                return Err(e);
            },
        };
        let out = host.run(self, name, input);
        self.check_in(i);
        Ok(out)
    }

    /// Calls the document function `name`, which takes no input (type `()`) and
    /// must be declared to yield a document (type `HTMLScene`). The entry is
    /// checked out while the function runs and checked back in afterwards.
    pub fn call<H: Host>(&mut self, host: &mut H, name: &String, graph: &Graph) -> (r:
        Result<Element, HTMLSceneSpawnError>)
        ensures
            match document_refusal(old(self).entries(), name@) {
                Some(e) => r matches Err(x) && x@ == e && final(self).entries() == old(
                    self,
                ).entries(),
                None => r is Ok && checked_in_after(old(self).entries(), final(self).entries(), name@),
            },
    {
        let unit = String::from_str("()");
        let i = match self.check_out(name, &unit) {
            Ok(i) => i,
            Err(e) => {
                return Err(e);
            },
        };
        proof {
            lemma_find_fn_index(old(self).entries(), name@);
        }
        let scene = String::from_str("HTMLScene");
        if self.entries[i].output != scene {
            let o = self.entries[i].output.clone();
            self.check_in(i);
            proof {
                assert(self.entries@ =~= old(self).entries@);
            }
            return Err(HTMLSceneSpawnError::TypeMismatch(name.clone(), scene, o));
        }
        let doc = host.render(self, name, graph);
        self.check_in(i);
        Ok(doc)
    }
}

/// Why a call of the document function `name` cannot start or cannot yield a
/// document, if so: the table refuses an input of type `()`, or the function is
/// not declared to yield `HTMLScene`.
pub open spec fn document_refusal(s: Seq<FunctionEntry>, name: Seq<char>) -> Option<ErrView> {
    match call_refusal(s, name, "()"@) {
        Some(e) => Some(e),
        None => {
            let o = find_fn(s, name)->0.output@;
            if o != "HTMLScene"@ {
                Some(ErrView::TypeMismatch(name, "HTMLScene"@, o))
            } else {
                None
            }
        },
    }
}

/// After a call of `name` that the table `before` let start: the entry that the
/// call used, wherever the table still holds that position, is no longer
/// checked out.
pub open spec fn checked_in_after(before: Seq<FunctionEntry>, after: Seq<FunctionEntry>, name: Seq<char>) -> bool {
    let i = find_fn_index(before, name)->0;
    i < after.len() ==> !after[i].checked_out
}

/// Sets up the named-function table of a scene.
pub struct NamedSystemRegistryPlugin;

impl NamedSystemRegistryPlugin {
    /// The empty table that a scene starts with.
    pub fn build(&self) -> (r: NamedSystemRegistry)
        ensures
            r.entries().len() == 0,
    {
        NamedSystemRegistry::new()
    }
}

} // verus!
