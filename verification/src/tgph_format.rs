//! The store, its columns, and how samples enter them.

use crate::model::{
    has_container, is_first_named, keep_last, lemma_append_is_update,
    lemma_first_named_is_position, ContainerView, ElementsView, Scalar, StoreView,
    DEFAULT_ENTRY_LIMIT, MAGIC, VERSION,
};
use vstd::pervasive::unreached;
use vstd::prelude::*;

verus! {

/// A 32-bit float, held as its IEEE-754 bit pattern.
#[derive(Clone, Copy, Debug, PartialEq, Eq, Structural)]
pub struct Float32 {
    pub bits: u32,
}

impl Float32 {
    /// The float whose bit pattern is `bits`.
    pub fn from_bits(bits: u32) -> (r: Float32)
        ensures
            r.bits == bits,
    {
        Float32 { bits }
    }

    /// The bit pattern of this float.
    pub fn to_bits(self) -> (r: u32)
        ensures
            r == self.bits,
    {
        self.bits
    }
}

/// What a vector of strings holds.
pub open spec fn strings_view(v: Seq<String>) -> Seq<Seq<char>> {
    v.map_values(|s: String| s@)
}

/// The bit patterns that a vector of floats holds.
pub open spec fn bits_view(v: Seq<Float32>) -> Seq<u32> {
    v.map_values(|f: Float32| f.bits)
}

/// The samples of one column, oldest first.
pub enum ElementArrayType {
    U32(Vec<u32>),
    FLOAT32(Vec<Float32>),
    STRING(Vec<String>),
}

impl View for ElementArrayType {
    type V = ElementsView;

    open spec fn view(&self) -> ElementsView {
        match self {
            ElementArrayType::U32(v) => ElementsView::U32(v@),
            ElementArrayType::FLOAT32(v) => ElementsView::Float32(bits_view(v@)),
            ElementArrayType::STRING(v) => ElementsView::String(strings_view(v@)),
        }
    }
}

impl ElementArrayType {
    /// The byte that names the element kind on the wire.
    pub fn get_index(&self) -> (r: u8)
        ensures
            r == self@.tag(),
    {
        match self {
            Self::U32(_) => 1,
            Self::FLOAT32(_) => 2,
            Self::STRING(_) => 3,
        }
    }

    /// The number of samples.
    pub fn len(&self) -> (r: usize)
        ensures
            r == self@.len(),
    {
        match self {
            Self::U32(v) => v.len(),
            Self::FLOAT32(v) => v.len(),
            Self::STRING(v) => v.len(),
        }
    }
}

/// A named column of samples.
pub struct TGPHContainer {
    pub name: String,
    pub elements: ElementArrayType,
}

impl View for TGPHContainer {
    type V = ContainerView;

    open spec fn view(&self) -> ContainerView {
        ContainerView { name: self.name@, elements: self.elements@ }
    }
}

/// What a vector of columns holds.
pub open spec fn containers_view(v: Seq<TGPHContainer>) -> Seq<ContainerView> {
    v.map_values(|c: TGPHContainer| c@)
}

/// The store: named columns in the order in which they were first seen.
pub struct TGPH {
    pub magic: u32,
    pub version: u8,
    pub containers: Vec<TGPHContainer>,
    pub entry_limit: usize,
}

impl View for TGPH {
    type V = StoreView;

    open spec fn view(&self) -> StoreView {
        StoreView {
            magic: self.magic,
            version: self.version,
            containers: containers_view(self.containers@),
            entry_limit: self.entry_limit as nat,
        }
    }
}

/// A value that can be a sample: one impl for each element kind.
pub trait BaseContainerElementType: Sized {
    /// The sample that this value is.
    spec fn scalar(&self) -> Scalar;

    /// The array that a sequence of such values is.
    spec fn elements_of(values: Seq<Self>) -> ElementsView;

    /// Appends this value to the column `name` of `tgph`, which is made
    /// first where it is missing, and drops the oldest samples of that
    /// column beyond the retention limit.
    fn push_element(&self, tgph: &mut TGPH, name: &str)
        requires
            old(tgph)@.accepts(name@, self.scalar()),
        ensures
            final(tgph)@ == old(tgph)@.append(name@, self.scalar()),
    ;

    /// The element array that holds `values`.
    fn into_elements(values: Vec<Self>) -> (r: ElementArrayType)
        ensures
            r@ == Self::elements_of(values@),
    ;
}

impl Default for TGPH {
    fn default() -> (r: Self)
        ensures
            r@ == (StoreView {
                magic: MAGIC,
                version: VERSION,
                containers: Seq::empty(),
                entry_limit: DEFAULT_ENTRY_LIMIT as nat,
            }),
    {
        let r = Self {
            magic: MAGIC,
            version: VERSION,
            containers: Vec::new(),
            entry_limit: DEFAULT_ENTRY_LIMIT,
        };
        assert(containers_view(r.containers@) =~= Seq::empty());
        r
    }
}

impl TGPH {
    /// An empty store that keeps the newest `entry_limit` samples of each
    /// column.
    pub fn new(entry_limit: usize) -> (r: Self)
        ensures
            r@ == (StoreView {
                magic: MAGIC,
                version: VERSION,
                containers: Seq::empty(),
                entry_limit: entry_limit as nat,
            }),
    {
        let mut def = Self::default();
        def.entry_limit = entry_limit;
        def
    }

    /// Adds `container` as the last column, whatever its name.
    pub fn add_container(&mut self, container: TGPHContainer)
        ensures
            final(self).containers@ == old(self).containers@.push(container),
            final(self)@ == (StoreView {
                containers: old(self)@.containers.push(container@),
                ..old(self)@
            }),
    {
        self.containers.push(container);
        assert(containers_view(self.containers@) =~= containers_view(old(self).containers@).push(
            container@,
        ));
    }

    /// Appends the sample `data` to the column `name`, which is made first
    /// where it is missing, and drops the oldest samples of that column
    /// beyond the retention limit.
    pub fn append<T: BaseContainerElementType>(&mut self, data: T, name: &str)
        requires
            old(self)@.accepts(name@, data.scalar()),
        ensures
            final(self)@ == old(self)@.append(name@, data.scalar()),
    {
        data.push_element(self, name);
    }

    /// Gives the column `name` the samples `data` as its whole content,
    /// whatever the retention limit; the column is made first where it is
    /// missing.
    pub fn replace<T: BaseContainerElementType>(&mut self, data: Vec<T>, name: &str)
        requires
            old(self)@.accepts_all(name@, T::elements_of(data@)),
        ensures
            final(self)@ == old(self)@.replace(name@, T::elements_of(data@)),
    {
        let elements = T::into_elements(data);
        match self.find(name) {
            Some(i) => {
                proof {
                    lemma_first_named_is_position(self@.containers, name@, i as int);
                }
                self.containers[i].elements = elements;
                assert(containers_view(self.containers@) =~= containers_view(
                    old(self).containers@,
                ).update(i as int, ContainerView { name: name@, elements: elements@ }));
            },
            None => {
                self.add_container(TGPHContainer { name: name.to_owned(), elements });
            },
        }
    }

    /// The position of the first column named `name`.
    pub fn find(&self, name: &str) -> (r: Option<usize>)
        ensures
            match r {
                Some(i) => is_first_named(self@.containers, name@, i as int),
                None => !has_container(self@.containers, name@),
            },
    {
        let key = name.to_owned();
        let mut i: usize = 0;
        while i < self.containers.len()
            invariant
                i <= self.containers@.len(),
                key@ == name@,
                forall|j: int| 0 <= j < i ==> (#[trigger] self@.containers[j]).name != name@,
            decreases self.containers@.len() - i,
        {
            if self.containers[i].name == key {
                return Some(i);
            }
            i += 1;
        }
        None
    }

    /// Whether samples of the kind that `tag` names may go under `name`:
    /// the first column of that name, if there is one, holds that kind.
    pub fn accepts_kind(&self, name: &str, tag: u8) -> (r: bool)
        ensures
            r == self@.accepts_kind(name@, tag),
    {
        match self.find(name) {
            Some(i) => {
                proof {
                    lemma_first_named_is_position(self@.containers, name@, i as int);
                }
                self.containers[i].elements.get_index() == tag
            },
            None => true,
        }
    }

    /// The number of columns.
    pub fn container_count(&self) -> (r: usize)
        ensures
            r == self@.containers.len(),
    {
        self.containers.len()
    }

    /// The number of samples recorded so far, as the first column tells it;
    /// zero for a store without columns.
    pub fn recorded_points(&self) -> (r: usize)
        ensures
            r == if self@.containers.len() == 0 {
                0
            } else {
                self@.containers[0].elements.len()
            },
    {
        if self.containers.len() == 0 {
            0
        } else {
            self.containers[0].elements.len()
        }
    }

    /// The position of the column that a sample under `name` goes to: the
    /// first column of that name, or a new last column with the empty
    /// array `empty`.
    fn find_or_create(&mut self, name: &str, empty: ElementArrayType) -> (i: usize)
        requires
            empty@.len() == 0,
        ensures
            i < final(self).containers@.len(),
            final(self).magic == old(self).magic,
            final(self).version == old(self).version,
            final(self).entry_limit == old(self).entry_limit,
            has_container(old(self)@.containers, name@) ==> final(self).containers@ == old(
                self,
            ).containers@ && is_first_named(old(self)@.containers, name@, i as int),
            !has_container(old(self)@.containers, name@) ==> i == old(self).containers@.len()
                && final(self)@.containers == old(self)@.containers.push(
                ContainerView { name: name@, elements: empty@ },
            ),
    {
        match self.find(name) {
            Some(i) => i,
            None => {
                self.add_container(TGPHContainer { name: name.to_owned(), elements: empty });
                self.containers.len() - 1
            },
        }
    }
}

/// Adds `value` at the end of `elements`, then drops the oldest items
/// until no more than `limit` are left.
fn push_bounded<T>(elements: &mut Vec<T>, value: T, limit: usize)
    ensures
        final(elements)@ == keep_last(old(elements)@.push(value), limit as nat),
{
    elements.push(value);
    let ghost full = elements@;
    while elements.len() > limit
        invariant
            elements@.len() <= full.len(),
            elements@.len() >= limit || elements@.len() == full.len(),
            elements@ == full.subrange(full.len() - elements@.len(), full.len() as int),
        decreases elements@.len(),
    {
        elements.remove(0);
        assert(elements@ =~= full.subrange(full.len() - elements@.len(), full.len() as int));
    }
    assert(elements@ =~= keep_last(full, limit as nat));
}

/// Keeping the newest items and then mapping them is mapping all and then
/// keeping the newest.
proof fn lemma_keep_last_of_mapped<A, B>(s: Seq<A>, x: A, f: spec_fn(A) -> B, limit: nat)
    ensures
        keep_last(s.push(x), limit).map_values(f) == keep_last(
            s.map_values(f).push(f(x)),
            limit,
        ),
{
    assert(s.push(x).map_values(f) =~= s.map_values(f).push(f(x)));
    assert(keep_last(s.push(x), limit).map_values(f) =~= keep_last(
        s.push(x).map_values(f),
        limit,
    ));
}

impl BaseContainerElementType for u32 {
    open spec fn scalar(&self) -> Scalar {
        Scalar::U32(*self)
    }

    open spec fn elements_of(values: Seq<u32>) -> ElementsView {
        ElementsView::U32(values)
    }

    fn push_element(&self, tgph: &mut TGPH, name: &str) {
        let i = tgph.find_or_create(name, ElementArrayType::U32(Vec::new()));
        let limit = tgph.entry_limit;
        let ghost mid = tgph.containers@;
        proof {
            lemma_append_is_update(old(tgph)@, tgph@.containers, name@, self.scalar(), i as int);
            assert(tgph@.containers[i as int] == mid[i as int]@);
        }
        match &mut tgph.containers[i].elements {
            ElementArrayType::U32(elements) => {
                push_bounded(elements, *self, limit);
            },
            _ => unreached(),
        }
        assert(tgph@.containers =~= containers_view(mid).update(
            i as int,
            ContainerView {
                name: name@,
                elements: mid[i as int].elements@.push(self.scalar()).keep_last(limit as nat),
            },
        ));
    }

    fn into_elements(values: Vec<u32>) -> ElementArrayType {
        ElementArrayType::U32(values)
    }
}

impl BaseContainerElementType for Float32 {
    open spec fn scalar(&self) -> Scalar {
        Scalar::Float32(self.bits)
    }

    open spec fn elements_of(values: Seq<Float32>) -> ElementsView {
        ElementsView::Float32(bits_view(values))
    }

    fn push_element(&self, tgph: &mut TGPH, name: &str) {
        let i = tgph.find_or_create(name, ElementArrayType::FLOAT32(Vec::new()));
        let limit = tgph.entry_limit;
        let ghost mid = tgph.containers@;
        proof {
            assert(bits_view(Seq::<Float32>::empty()) =~= Seq::<u32>::empty());
            lemma_append_is_update(old(tgph)@, tgph@.containers, name@, self.scalar(), i as int);
            assert(tgph@.containers[i as int] == mid[i as int]@);
        }
        match &mut tgph.containers[i].elements {
            ElementArrayType::FLOAT32(elements) => {
                proof {
                    lemma_keep_last_of_mapped(
                        elements@,
                        *self,
                        |f: Float32| f.bits,
                        limit as nat,
                    );
                }
                push_bounded(elements, *self, limit);
            },
            _ => unreached(),
        }
        assert(tgph@.containers =~= containers_view(mid).update(
            i as int,
            ContainerView {
                name: name@,
                elements: mid[i as int].elements@.push(self.scalar()).keep_last(limit as nat),
            },
        ));
    }

    fn into_elements(values: Vec<Float32>) -> ElementArrayType {
        ElementArrayType::FLOAT32(values)
    }
}

impl BaseContainerElementType for String {
    open spec fn scalar(&self) -> Scalar {
        Scalar::String(self@)
    }

    open spec fn elements_of(values: Seq<String>) -> ElementsView {
        ElementsView::String(strings_view(values))
    }

    fn push_element(&self, tgph: &mut TGPH, name: &str) {
        let i = tgph.find_or_create(name, ElementArrayType::STRING(Vec::new()));
        let limit = tgph.entry_limit;
        let ghost mid = tgph.containers@;
        proof {
            assert(strings_view(Seq::<String>::empty()) =~= Seq::<Seq<char>>::empty());
            lemma_append_is_update(old(tgph)@, tgph@.containers, name@, self.scalar(), i as int);
            assert(tgph@.containers[i as int] == mid[i as int]@);
        }
        match &mut tgph.containers[i].elements {
            ElementArrayType::STRING(elements) => {
                proof {
                    lemma_keep_last_of_mapped(
                        elements@,
                        *self,
                        |s: String| s@,
                        limit as nat,
                    );
                }
                push_bounded(elements, self.clone(), limit);
            },
            _ => unreached(),
        }
        assert(tgph@.containers =~= containers_view(mid).update(
            i as int,
            ContainerView {
                name: name@,
                elements: mid[i as int].elements@.push(self.scalar()).keep_last(limit as nat),
            },
        ));
    }

    fn into_elements(values: Vec<String>) -> ElementArrayType {
        ElementArrayType::STRING(values)
    }
}

} // verus!
