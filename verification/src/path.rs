//! Paths of files.
use crate::lex;
use crate::lex::bytes_before;
use vstd::prelude::*;

verus! {

/// A component of a path. The bytes are the name as the operating system encodes it.
#[derive(Debug, PartialEq, Eq)]
pub enum PathComponent {
    /// What stands before the root, such as a drive.
    Prefix(Vec<u8>),
    /// The root directory.
    RootDir,
    /// The current directory.
    CurDir,
    /// The parent directory.
    ParentDir,
    /// A name.
    Normal(Vec<u8>),
}

impl PathComponent {
    /// The place of the kind of component in the order of components.
    pub open spec fn kind(self) -> u8 {
        match self {
            PathComponent::Prefix(_) => 0,
            PathComponent::RootDir => 1,
            PathComponent::CurDir => 2,
            PathComponent::ParentDir => 3,
            PathComponent::Normal(_) => 4,
        }
    }

    /// The bytes of the name; of a component without a name, none.
    pub open spec fn name(self) -> Seq<u8> {
        match self {
            PathComponent::Prefix(bytes) => bytes@,
            PathComponent::RootDir => Seq::empty(),
            PathComponent::CurDir => Seq::empty(),
            PathComponent::ParentDir => Seq::empty(),
            PathComponent::Normal(bytes) => bytes@,
        }
    }

    fn kind_number(&self) -> (kind: u8)
        ensures
            kind == self.kind(),
    {
        match self {
            PathComponent::Prefix(_) => 0,
            PathComponent::RootDir => 1,
            PathComponent::CurDir => 2,
            PathComponent::ParentDir => 3,
            PathComponent::Normal(_) => 4,
        }
    }

    fn name_before(&self, other: &PathComponent) -> (before: bool)
        requires
            self.kind() == other.kind(),
        ensures
            before == lex::bytes_order()(self.name(), other.name()),
    {
        match (self, other) {
            (PathComponent::Prefix(a), PathComponent::Prefix(b)) => bytes_before(
                a.as_slice(),
                b.as_slice(),
            ),
            (PathComponent::Normal(a), PathComponent::Normal(b)) => bytes_before(
                a.as_slice(),
                b.as_slice(),
            ),
            _ => {
                proof {
                    lex::bytes_order_is_strict_total();
                    assert(!lex::bytes_order()(self.name(), self.name()));
                }
                false
            },
        }
    }

    /// Whether this component comes before `other`: by kind, then by name.
    pub fn before(&self, other: &PathComponent) -> (before: bool)
        ensures
            before == lex::bytes_order()(self@, other@),
    {
        proof {
            lemma_headed(self.kind(), self.name(), other.kind(), other.name());
        }
        let a = self.kind_number();
        let b = other.kind_number();
        if a == b {
            self.name_before(other)
        } else {
            a < b
        }
    }
}

/// A component stands for its kind followed by its name.
impl View for PathComponent {
    type V = Seq<u8>;

    open spec fn view(&self) -> Seq<u8> {
        seq![self.kind()] + self.name()
    }
}

impl Clone for PathComponent {
    fn clone(&self) -> (copy: Self)
        ensures
            copy@ == self@,
    {
        match self {
            PathComponent::Prefix(bytes) => PathComponent::Prefix(copied_bytes(bytes)),
            PathComponent::RootDir => PathComponent::RootDir,
            PathComponent::CurDir => PathComponent::CurDir,
            PathComponent::ParentDir => PathComponent::ParentDir,
            PathComponent::Normal(bytes) => PathComponent::Normal(copied_bytes(bytes)),
        }
    }
}

fn copied_bytes(bytes: &Vec<u8>) -> (copy: Vec<u8>)
    ensures
        copy@ == bytes@,
{
    let copy = bytes.clone();
    proof {
        assert(copy@ =~= bytes@);
    }
    copy
}

/// Byte strings with a leading byte compare by that byte, then by the rest.
pub proof fn lemma_headed(h: u8, x: Seq<u8>, k: u8, y: Seq<u8>)
    ensures
        lex::bytes_order()(seq![h] + x, seq![k] + y) == if h == k {
            lex::bytes_order()(x, y)
        } else {
            h < k
        },
{
    let lt = lex::byte_order();
    let a = seq![h] + x;
    let b = seq![k] + y;
    if h == k {
        if lex::lex_before(lt, x, y) {
            let i = choose|i: int| lex::parts_at(lt, x, y, i);
            assert forall|j: int| 0 <= j < i + 1 implies #[trigger] a[j] == b[j] by {
                if j > 0 {
                    assert(x[j - 1] == y[j - 1]);
                }
            }
            assert(lex::parts_at(lt, a, b, i + 1));
        }
        if lex::lex_before(lt, a, b) {
            let i = choose|i: int| lex::parts_at(lt, a, b, i);
            assert forall|j: int| 0 <= j < i - 1 implies #[trigger] x[j] == y[j] by {
                assert(a[j + 1] == b[j + 1]);
            }
            assert(lex::parts_at(lt, x, y, i - 1));
        }
    } else {
        if h < k {
            assert(lex::parts_at(lt, a, b, 0));
        } else if lex::lex_before(lt, a, b) {
            let i = choose|i: int| lex::parts_at(lt, a, b, i);
            if i > 0 {
                assert(a[0] == b[0]);
            }
        }
    }
}

/// The path of a file: how it is found again, how it is shown, and what it is made of.
/// Two paths are equal where their components are.
#[derive(Debug)]
pub struct FilePath {
    /// The number under which the owner of the path finds it again.
    pub id: usize,
    /// The path as it is shown.
    pub name: String,
    /// Whether the path is valid Unicode; then `name` is the path letter for letter.
    pub unicode: bool,
    /// The components of the path.
    pub components: Vec<PathComponent>,
}

/// What a path stands for.
#[verifier::ext_equal]
pub struct PathModel {
    pub id: usize,
    pub name: Seq<char>,
    pub unicode: bool,
    pub components: Seq<Seq<u8>>,
}

/// What components stand for.
pub open spec fn component_keys(components: Seq<PathComponent>) -> Seq<Seq<u8>> {
    components.map_values(|c: PathComponent| c@)
}

impl View for FilePath {
    type V = PathModel;

    open spec fn view(&self) -> PathModel {
        PathModel {
            id: self.id,
            name: self.name@,
            unicode: self.unicode,
            components: component_keys(self.components@),
        }
    }
}

impl PathModel {
    /// The components of `base` are the first components of this path.
    pub open spec fn starts_with(self, base: PathModel) -> bool {
        base.components.is_prefix_of(self.components)
    }
}

/// The order of component lists: component by component.
pub open spec fn components_order() -> spec_fn(Seq<Seq<u8>>, Seq<Seq<u8>>) -> bool {
    lex::lex(lex::bytes_order())
}

/// The order of paths by their components.
pub open spec fn path_order() -> spec_fn(PathModel, PathModel) -> bool {
    |a: PathModel, b: PathModel| components_order()(a.components, b.components)
}

/// The order of component lists is a strict total order.
pub proof fn components_order_is_strict_total()
    ensures
        lex::strict_total_order(components_order()),
{
    lex::bytes_order_is_strict_total();
    lex::lex_is_strict_total_order(lex::bytes_order());
}

impl FilePath {
    /// Whether the components of `base` are the first components of this path.
    pub fn starts_with(&self, base: &FilePath) -> (within: bool)
        ensures
            within == self@.starts_with(base@),
    {
        if base.components.len() > self.components.len() {
            return false;
        }
        let mut i: usize = 0;
        while i < base.components.len()
            invariant
                i <= base.components@.len(),
                base.components@.len() <= self.components@.len(),
                forall|j: int| 0 <= j < i ==> #[trigger] base.components@[j]@ == self.components@[j]@,
            decreases base.components@.len() - i,
        {
            proof {
                lex::bytes_order_is_strict_total();
            }
            if base.components[i].before(&self.components[i])
                || self.components[i].before(&base.components[i]) {
                proof {
                    let k = i as int;
                    assert(base@.components[k] == base.components@[k]@);
                    assert(self@.components[k] == self.components@[k]@);
                    assert(!lex::bytes_order()(base@.components[k], base@.components[k]));
                }
                return false;
            }
            i = i + 1;
        }
        proof {
            assert(self@.components.subrange(0, base@.components.len() as int)
                =~= base@.components);
        }
        true
    }

    /// Whether this path comes before `other`.
    pub fn before(&self, other: &FilePath) -> (before: bool)
        ensures
            before == path_order()(self@, other@),
    {
        let ghost a = self@.components;
        let ghost b = other@.components;
        let ghost lt = lex::bytes_order();
        proof {
            lex::bytes_order_is_strict_total();
            components_order_is_strict_total();
        }
        let mut k: usize = 0;
        while k < self.components.len() && k < other.components.len()
            invariant
                k <= a.len(),
                k <= b.len(),
                a == component_keys(self.components@),
                b == component_keys(other.components@),
                a == self@.components,
                b == other@.components,
                lt == lex::bytes_order(),
                forall|i: int| 0 <= i < k ==> #[trigger] a[i] == b[i],
                lex::strict_total_order(lt),
                lex::strict_total_order(components_order()),
            decreases a.len() - k,
        {
            if self.components[k].before(&other.components[k]) {
                proof {
                    assert(lex::parts_at(lt, a, b, k as int));
                }
                return true;
            }
            if other.components[k].before(&self.components[k]) {
                proof {
                    assert(lex::parts_at(lt, b, a, k as int));
                    assert(components_order()(b, a));
                    assert(!components_order()(a, a));
                }
                return false;
            }
            proof {
                assert(lt(a[k as int], b[k as int]) || a[k as int] == b[k as int] || lt(
                    b[k as int],
                    a[k as int],
                ));
            }
            k = k + 1;
        }
        proof {
            if k < b.len() {
                assert(lex::parts_at(lt, a, b, k as int));
            } else if k < a.len() {
                assert(lex::parts_at(lt, b, a, k as int));
                assert(components_order()(b, a));
                assert(!components_order()(a, a));
            } else {
                assert(a =~= b);
                assert(!components_order()(a, a));
            }
        }
        k < other.components.len()
    }
}

impl PartialEq for FilePath {
    fn eq(&self, other: &FilePath) -> (equal: bool) {
        let equal = self.components.len() == other.components.len() && self.starts_with(other);
        proof {
            let a = self@.components;
            let b = other@.components;
            if b.is_prefix_of(a) && a.len() == b.len() {
                assert(a.subrange(0, b.len() as int) =~= a);
            }
        }
        equal
    }
}

impl Eq for FilePath {

}

impl vstd::std_specs::cmp::PartialEqSpecImpl for FilePath {
    open spec fn obeys_eq_spec() -> bool {
        true
    }

    open spec fn eq_spec(&self, other: &FilePath) -> bool {
        self@.components == other@.components
    }
}

impl Clone for FilePath {
    fn clone(&self) -> (copy: Self)
        ensures
            copy@ == self@,
    {
        let mut components: Vec<PathComponent> = Vec::new();
        let mut i: usize = 0;
        while i < self.components.len()
            invariant
                i <= self.components@.len(),
                components@.len() == i,
                forall|j: int| 0 <= j < i ==> #[trigger] components@[j]@ == self.components@[j]@,
            decreases self.components@.len() - i,
        {
            components.push(self.components[i].clone());
            i = i + 1;
        }
        proof {
            assert(component_keys(components@) =~= component_keys(self.components@));
        }
        FilePath { id: self.id, name: self.name.clone(), unicode: self.unicode, components }
    }
}

} // verus!
