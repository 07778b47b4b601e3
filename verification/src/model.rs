//! The mathematical model of a store: what a column holds, and what
//! appending and replacing do to it.

use vstd::prelude::*;

verus! {

/// The format tag: the bytes `TGPH`, read as a little-endian number.
pub const MAGIC: u32 = 0x48504754;

/// The format version that a new store carries.
pub const VERSION: u8 = 1;

/// The retention limit of a store for which none was named.
pub const DEFAULT_ENTRY_LIMIT: usize = 1000;

/// One sample, tagged with its kind. A float stands here as its IEEE-754
/// bit pattern.
pub enum Scalar {
    U32(u32),
    Float32(u32),
    String(Seq<char>),
}

/// What an element array holds, oldest sample first.
pub enum ElementsView {
    U32(Seq<u32>),
    Float32(Seq<u32>),
    String(Seq<Seq<char>>),
}

/// A named column.
pub struct ContainerView {
    pub name: Seq<char>,
    pub elements: ElementsView,
}

/// A store: format tag, format version, the columns in the order in which
/// they were first seen, and the retention limit.
pub struct StoreView {
    pub magic: u32,
    pub version: u8,
    pub containers: Seq<ContainerView>,
    pub entry_limit: nat,
}

/// The last `limit` items of `s`, or all of `s` where it has no more than
/// that.
pub open spec fn keep_last<T>(s: Seq<T>, limit: nat) -> Seq<T> {
    if s.len() > limit {
        s.subrange(s.len() - limit, s.len() as int)
    } else {
        s
    }
}

impl Scalar {
    /// The byte that names this kind on the wire.
    pub open spec fn tag(self) -> u8 {
        match self {
            Scalar::U32(_) => 1,
            Scalar::Float32(_) => 2,
            Scalar::String(_) => 3,
        }
    }
}

impl ElementsView {
    /// The byte that names this kind on the wire.
    pub open spec fn tag(self) -> u8 {
        match self {
            ElementsView::U32(_) => 1,
            ElementsView::Float32(_) => 2,
            ElementsView::String(_) => 3,
        }
    }

    /// The number of samples.
    pub open spec fn len(self) -> nat {
        match self {
            ElementsView::U32(s) => s.len(),
            ElementsView::Float32(s) => s.len(),
            ElementsView::String(s) => s.len(),
        }
    }

    /// The empty array of the kind of `v`.
    pub open spec fn empty_for(v: Scalar) -> ElementsView {
        match v {
            Scalar::U32(_) => ElementsView::U32(Seq::empty()),
            Scalar::Float32(_) => ElementsView::Float32(Seq::empty()),
            Scalar::String(_) => ElementsView::String(Seq::empty()),
        }
    }

    /// The array with `v` added at its end.
    pub open spec fn push(self, v: Scalar) -> ElementsView
        recommends
            self.tag() == v.tag(),
    {
        match (self, v) {
            (ElementsView::U32(s), Scalar::U32(x)) => ElementsView::U32(s.push(x)),
            (ElementsView::Float32(s), Scalar::Float32(x)) => ElementsView::Float32(s.push(x)),
            (ElementsView::String(s), Scalar::String(x)) => ElementsView::String(s.push(x)),
            _ => self,
        }
    }

    /// The newest `limit` samples.
    pub open spec fn keep_last(self, limit: nat) -> ElementsView {
        match self {
            ElementsView::U32(s) => ElementsView::U32(keep_last(s, limit)),
            ElementsView::Float32(s) => ElementsView::Float32(keep_last(s, limit)),
            ElementsView::String(s) => ElementsView::String(keep_last(s, limit)),
        }
    }

    /// The samples, each tagged with its kind.
    pub open spec fn scalars(self) -> Seq<Scalar> {
        Seq::new(self.len(), |i: int| self.index(i))
    }

    /// The sample at position `i`.
    pub open spec fn index(self, i: int) -> Scalar
        recommends
            0 <= i < self.len(),
    {
        match self {
            ElementsView::U32(s) => Scalar::U32(s[i]),
            ElementsView::Float32(s) => Scalar::Float32(s[i]),
            ElementsView::String(s) => Scalar::String(s[i]),
        }
    }
}

/// Whether some column of `cs` is named `name`.
pub open spec fn has_container(cs: Seq<ContainerView>, name: Seq<char>) -> bool {
    exists|i: int| 0 <= i < cs.len() && #[trigger] cs[i].name == name
}

/// Whether `i` is the first column of `cs` named `name`.
pub open spec fn is_first_named(cs: Seq<ContainerView>, name: Seq<char>, i: int) -> bool {
    &&& 0 <= i < cs.len()
    &&& cs[i].name == name
    &&& forall|j: int| 0 <= j < i ==> #[trigger] cs[j].name != name
}

/// The position of the first column of `cs` named `name`.
pub open spec fn position_of(cs: Seq<ContainerView>, name: Seq<char>) -> int
    recommends
        has_container(cs, name),
{
    choose|i: int| is_first_named(cs, name, i)
}

/// A first column of a name is the only first column of that name.
pub proof fn lemma_first_named_is_position(cs: Seq<ContainerView>, name: Seq<char>, i: int)
    requires
        is_first_named(cs, name, i),
    ensures
        has_container(cs, name),
        position_of(cs, name) == i,
{
    let p = position_of(cs, name);
    assert(is_first_named(cs, name, p));
    if p < i {
        assert(cs[p].name != name);
    } else if i < p {
        assert(cs[i].name != name);
    }
}

/// Where no column before `k` is named `name` and one from `k` on is, some
/// column is the first of that name.
proof fn lemma_first_named_from(cs: Seq<ContainerView>, name: Seq<char>, k: int, m: int)
    requires
        0 <= k <= m < cs.len(),
        cs[m].name == name,
        forall|j: int| 0 <= j < k ==> #[trigger] cs[j].name != name,
    ensures
        exists|i: int| is_first_named(cs, name, i),
    decreases m - k,
{
    if cs[k].name == name {
        assert(is_first_named(cs, name, k));
    } else {
        lemma_first_named_from(cs, name, k + 1, m);
    }
}

/// Where a column has the name, the position of the name is its first
/// column.
pub proof fn lemma_position_is_first(cs: Seq<ContainerView>, name: Seq<char>)
    requires
        has_container(cs, name),
    ensures
        is_first_named(cs, name, position_of(cs, name)),
{
    let m = choose|i: int| 0 <= i < cs.len() && #[trigger] cs[i].name == name;
    lemma_first_named_from(cs, name, 0, m);
}

impl StoreView {
    /// Whether samples of the kind that `tag` names may go under `name`:
    /// the first column of that name, if there is one, holds that kind.
    pub open spec fn accepts_kind(self, name: Seq<char>, tag: u8) -> bool {
        has_container(self.containers, name) ==> self.containers[position_of(
            self.containers,
            name,
        )].elements.tag() == tag
    }

    /// Whether the sample `v` may be appended under `name`.
    pub open spec fn accepts(self, name: Seq<char>, v: Scalar) -> bool {
        self.accepts_kind(name, v.tag())
    }

    /// The store after `v` was appended under `name`: the first column of
    /// that name, or a new last column where there is none, gets `v` at its
    /// end and keeps its newest `entry_limit` samples.
    pub open spec fn append(self, name: Seq<char>, v: Scalar) -> StoreView
        recommends
            self.accepts(name, v),
    {
        if has_container(self.containers, name) {
            let i = position_of(self.containers, name);
            let grown = self.containers[i].elements.push(v).keep_last(self.entry_limit);
            StoreView {
                containers: self.containers.update(i, ContainerView { name, elements: grown }),
                ..self
            }
        } else {
            let grown = ElementsView::empty_for(v).push(v).keep_last(self.entry_limit);
            StoreView {
                containers: self.containers.push(ContainerView { name, elements: grown }),
                ..self
            }
        }
    }

    /// Whether the whole array `values` may be put under `name`.
    pub open spec fn accepts_all(self, name: Seq<char>, values: ElementsView) -> bool {
        self.accepts_kind(name, values.tag())
    }

    /// The store after the column `name` was given `values` as its whole
    /// content, whatever the retention limit: the first column of that name,
    /// or a new last column where there is none.
    pub open spec fn replace(self, name: Seq<char>, values: ElementsView) -> StoreView {
        if has_container(self.containers, name) {
            let i = position_of(self.containers, name);
            StoreView {
                containers: self.containers.update(i, ContainerView { name, elements: values }),
                ..self
            }
        } else {
            StoreView {
                containers: self.containers.push(ContainerView { name, elements: values }),
                ..self
            }
        }
    }
}

/// Appending is one update of the column sequence `mid`, which is the
/// store's own where the column was there, and the store's with a new empty
/// last column where it was not.
pub proof fn lemma_append_is_update(
    s: StoreView,
    mid: Seq<ContainerView>,
    name: Seq<char>,
    v: Scalar,
    i: int,
)
    requires
        s.accepts(name, v),
        has_container(s.containers, name) ==> mid == s.containers && is_first_named(
            s.containers,
            name,
            i,
        ),
        !has_container(s.containers, name) ==> i == s.containers.len() && mid
            == s.containers.push(ContainerView { name, elements: ElementsView::empty_for(v) }),
    ensures
        0 <= i < mid.len(),
        mid[i].name == name,
        mid[i].elements.tag() == v.tag(),
        s.append(name, v).containers == mid.update(
            i,
            ContainerView {
                name,
                elements: mid[i].elements.push(v).keep_last(s.entry_limit),
            },
        ),
{
    if has_container(s.containers, name) {
        lemma_first_named_is_position(s.containers, name, i);
    } else {
        assert(s.append(name, v).containers =~= mid.update(
            i,
            ContainerView {
                name,
                elements: mid[i].elements.push(v).keep_last(s.entry_limit),
            },
        ));
    }
}

} // verus!
