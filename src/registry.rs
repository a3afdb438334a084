//! The type registry: registered type descriptors, looked up by name.
use vstd::prelude::*;
use crate::error::{ErrView, HTMLSceneSpawnError};
use crate::instance::Instance;
use crate::scene::ReadElement;

verus! {

/// A named field of a struct-shaped type or variant.
pub struct Field {
    pub name: String,
    pub ty: String,
}

/// The payload shape of one enum variant.
pub enum VariantKind {
    Unit,
    Tuple(Vec<String>),
    Struct(Vec<Field>),
}

pub struct Variant {
    pub name: String,
    pub kind: VariantKind,
}

/// How a leaf type reads a literal.
#[derive(Debug, Clone, Copy, PartialEq, Eq, Structural)]
pub enum LeafParser {
    /// An integer literal.
    Int,
    /// A quoted string.
    Text,
    /// The words `true` and `false`.
    Bool,
    /// A CSS colour in a quoted string, read as four 8-bit channels.
    Color,
}

/// The structure of a registered type.
pub enum Shape {
    Struct(Vec<Field>),
    TupleLike(Vec<String>),
    Enum(Vec<Variant>),
    /// An opaque leaf, read by its parser or by a constructor function.
    Value,
}

/// A registered type: its shape and construction capabilities.
pub struct TypeDescriptor {
    pub name: String,
    pub shape: Shape,
    /// The value that the default factory produces.
    pub default: Option<Instance>,
    pub parser: Option<LeafParser>,
    /// The subtree that the type expands to, for a template type.
    pub template: Option<ReadElement>,
}

/// Name to descriptor. Where two descriptors share a name the later one is found.
pub struct TypeRegistry {
    pub types: Vec<TypeDescriptor>,
}

/// Index of the last descriptor named `name` in `s`.
pub open spec fn find_type_index(s: Seq<TypeDescriptor>, name: Seq<char>) -> Option<int>
    decreases s.len(),
{
    if s.len() == 0 {
        None
    } else if s.last().name@ == name {
        Some(s.len() - 1)
    } else {
        find_type_index(s.drop_last(), name)
    }
}

/// The last descriptor named `name` in `s`.
pub open spec fn find_type(s: Seq<TypeDescriptor>, name: Seq<char>) -> Option<TypeDescriptor> {
    match find_type_index(s, name) {
        Some(i) => Some(s[i]),
        None => None,
    }
}

pub proof fn lemma_find_type_index(s: Seq<TypeDescriptor>, name: Seq<char>)
    ensures
        match find_type_index(s, name) {
            Some(i) => 0 <= i < s.len() && s[i].name@ == name && forall|j: int|
                i < j < s.len() ==> s[j].name@ != name,
            None => forall|j: int| 0 <= j < s.len() ==> s[j].name@ != name,
        },
    decreases s.len(),
{
    if s.len() > 0 {
        let t = s.drop_last();
        lemma_find_type_index(t, name);
        assert(forall|j: int| 0 <= j < t.len() ==> t[j] == s[j]);
    }
}

/// Position of the first `c` in `s`, from `k` on.
pub open spec fn index_of_from(s: Seq<char>, c: char, k: int) -> Option<int>
    decreases s.len() - k,
{
    if k < 0 || k >= s.len() {
        None
    } else if s[k] == c {
        Some(k)
    } else {
        index_of_from(s, c, k + 1)
    }
}

/// The name that a lookup uses: `name:Param` stands for `name<Param>`.
pub open spec fn resolved_name(s: Seq<char>) -> Seq<char> {
    match index_of_from(s, ':', 0) {
        Some(i) => s.subrange(0, i) + seq!['<'] + s.subrange(i + 1, s.len() as int) + seq!['>'],
        None => s,
    }
}

/// Resolves the generic suffix form `name:Param` to `name<Param>`.
pub fn resolve_name(s: &str) -> (r: String)
    ensures
        r@ == resolved_name(s@),
{
    let n = s.unicode_len();
    let mut i: usize = 0;
    while i < n
        invariant
            n == s@.len(),
            i <= n,
            index_of_from(s@, ':', 0) == index_of_from(s@, ':', i as int),
        decreases n - i,
    {
        if s.get_char(i) == ':' {
            let mut r = String::from_str(s.substring_char(0, i));
            r.append("<");
            r.append(s.substring_char(i + 1, n));
            r.append(">");
            proof {
                reveal_strlit("<");
                reveal_strlit(">");
            }
            return r;
        }
        i = i + 1;
    }
    String::from_str(s)
}

impl TypeRegistry {
    pub fn new() -> (r: TypeRegistry)
        ensures
            r.types@.len() == 0,
    {
        TypeRegistry { types: Vec::new() }
    }

    /// Adds a descriptor; it shadows any earlier one of the same name.
    pub fn register(&mut self, d: TypeDescriptor)
        ensures
            final(self).types@ == old(self).types@.push(d),
    {
        self.types.push(d);
    }

    /// Index of the descriptor that `name` refers to.
    pub fn lookup_index(&self, name: &String) -> (r: Option<usize>)
        ensures
            match r {
                Some(i) => find_type_index(self.types@, name@) == Some(i as int),
                None => find_type_index(self.types@, name@) is None,
            },
    {
        let mut k = self.types.len();
        proof {
            assert(self.types@.subrange(0, self.types@.len() as int) =~= self.types@);
        }
        while k > 0
            invariant
                k <= self.types@.len(),
                find_type_index(self.types@, name@) == find_type_index(
                    self.types@.subrange(0, k as int),
                    name@,
                ),
            decreases k,
        {
            proof {
                let s = self.types@.subrange(0, k as int);
                assert(s.drop_last() =~= self.types@.subrange(0, k - 1));
            }
            if self.types[k - 1].name == *name {
                return Some(k - 1);
            }
            k = k - 1;
        }
        None
    }

    /// The descriptor that `name` refers to, after resolving the generic suffix
    /// form `name:Param`.
    pub fn lookup(&self, name: &str) -> (r: Result<&TypeDescriptor, HTMLSceneSpawnError>)
        ensures
            match find_type_index(self.types@, resolved_name(name@)) {
                Some(i) => r matches Ok(d) && *d == self.types@[i],
                None => r matches Err(e) && e@ == ErrView::UnknownType(resolved_name(name@)),
            },
    {
        let resolved = resolve_name(name);
        match self.lookup_index(&resolved) {
            Some(i) => {
                proof {
                    lemma_find_type_index(self.types@, resolved@);
                }
                Ok(&self.types[i])
            },
            None => Err(HTMLSceneSpawnError::UnknownType(resolved)),
        }
    }

    /// Gives the type `name` a default value. False, and nothing changes, where
    /// no such type is registered.
    pub fn register_default(&mut self, name: &String, value: Instance) -> (r: bool)
        ensures
            match find_type_index(old(self).types@, name@) {
                Some(i) => r && final(self).types@ == old(self).types@.update(
                    i,
                    TypeDescriptor { default: Some(value), ..old(self).types@[i] },
                ),
                None => !r && final(self).types@ == old(self).types@,
            },
    {
        match self.lookup_index(name) {
            None => false,
            Some(i) => {
                proof {
                    lemma_find_type_index(self.types@, name@);
                }
                let d = self.types.remove(i);
                let TypeDescriptor { name: n, shape, default: _, parser, template } = d;
                self.types.insert(i, TypeDescriptor { name: n, shape, default: Some(value), parser, template });
                proof {
                    assert(self.types@ =~= old(self).types@.update(
                        i as int,
                        TypeDescriptor { default: Some(value), ..old(self).types@[i as int] },
                    ));
                }
                true
            },
        }
    }

    /// Gives the type `name` a leaf parser. False, and nothing changes, where
    /// no such type is registered.
    pub fn register_parser(&mut self, name: &String, parser: LeafParser) -> (r: bool)
        ensures
            match find_type_index(old(self).types@, name@) {
                Some(i) => r && final(self).types@ == old(self).types@.update(
                    i,
                    TypeDescriptor { parser: Some(parser), ..old(self).types@[i] },
                ),
                None => !r && final(self).types@ == old(self).types@,
            },
    {
        match self.lookup_index(name) {
            None => false,
            Some(i) => {
                proof {
                    lemma_find_type_index(self.types@, name@);
                }
                let d = self.types.remove(i);
                let TypeDescriptor { name: n, shape, default, parser: _, template } = d;
                self.types.insert(i, TypeDescriptor { name: n, shape, default, parser: Some(parser), template });
                proof {
                    assert(self.types@ =~= old(self).types@.update(
                        i as int,
                        TypeDescriptor { parser: Some(parser), ..old(self).types@[i as int] },
                    ));
                }
                true
            },
        }
    }

    /// Makes the type `name` a template that expands to `subtree`. False, and
    /// nothing changes, where no such type is registered.
    pub fn register_template(&mut self, name: &String, subtree: ReadElement) -> (r: bool)
        ensures
            match find_type_index(old(self).types@, name@) {
                Some(i) => r && final(self).types@ == old(self).types@.update(
                    i,
                    TypeDescriptor { template: Some(subtree), ..old(self).types@[i] },
                ),
                None => !r && final(self).types@ == old(self).types@,
            },
    {
        match self.lookup_index(name) {
            None => false,
            Some(i) => {
                proof {
                    lemma_find_type_index(self.types@, name@);
                }
                let d = self.types.remove(i);
                let TypeDescriptor { name: n, shape, default, parser, template: _ } = d;
                self.types.insert(i, TypeDescriptor { name: n, shape, default, parser, template: Some(subtree) });
                proof {
                    assert(self.types@ =~= old(self).types@.update(
                        i as int,
                        TypeDescriptor { template: Some(subtree), ..old(self).types@[i as int] },
                    ));
                }
                true
            },
        }
    }
}

} // verus!
