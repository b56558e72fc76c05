//! Wiring between systems: references to systems, multiplexed producers, and the
//! links they produce.
use vstd::prelude::*;

use std::marker::PhantomData;

verus! {

/// One producer-to-consumer connection: the output of system `from_system_idx`
/// feeds an input of system `to_system_idx`.
#[derive(Debug, Clone, Copy)]
pub struct SystemLink {
    pub from_system_idx: usize,
    pub to_system_idx: usize,
    pub to_input_offset: usize,
    pub num_bytes: usize,
}

/// Where one producer's value sits inside a consumer's composite input.
#[derive(Debug, Clone, Copy)]
pub struct SystemLayout {
    pub offset: usize,
    pub len: usize,
}

/// `layouts` with every offset moved by `by`.
pub open spec fn shifted(layouts: Seq<SystemLayout>, by: usize) -> Seq<SystemLayout> {
    layouts.map_values(|l: SystemLayout| SystemLayout { offset: (l.offset + by) as usize, len: l.len })
}

/// Every offset of `layouts` moved by `by` still fits in a `usize`.
pub open spec fn shift_fits(layouts: Seq<SystemLayout>, by: usize) -> bool {
    forall|i: int| 0 <= i < layouts.len() ==> #[trigger] layouts[i].offset + by <= usize::MAX
}

/// The links from the producers `ids`, laid out as `layouts` from offset `base`,
/// into system `to_id`: one per layout, in order.
pub open spec fn links_for(ids: Seq<usize>, layouts: Seq<SystemLayout>, to_id: usize, base: usize) -> Seq<
    SystemLink,
> {
    Seq::new(
        layouts.len(),
        |i: int|
            SystemLink {
                from_system_idx: ids[i],
                to_system_idx: to_id,
                to_input_offset: (base + layouts[i].offset) as usize,
                num_bytes: layouts[i].len,
            },
    )
}

/// Shifting layouts moves every one of them by `by`, keeps its length, and keeps
/// their number and order.
pub proof fn lemma_shift_moves_every_layout(layouts: Seq<SystemLayout>, by: usize)
    requires
        shift_fits(layouts, by),
    ensures
        shifted(layouts, by).len() == layouts.len(),
        forall|i: int|
            #![trigger shifted(layouts, by)[i]]
            0 <= i < layouts.len() ==> shifted(layouts, by)[i].offset == layouts[i].offset + by
                && shifted(layouts, by)[i].len == layouts[i].len,
{
    assert forall|i: int|
        #![trigger shifted(layouts, by)[i]]
        0 <= i < layouts.len() implies shifted(layouts, by)[i].offset == layouts[i].offset + by
            && shifted(layouts, by)[i].len == layouts[i].len by {
        assert(layouts[i].offset + by <= usize::MAX);
    }
}

/// Wiring producers to a consumer appends, for each producer in turn, one link
/// from that producer into the consumer, at that producer's offset from `base`
/// and with that producer's length; the links already there stay as they were.
pub proof fn lemma_links_follow_producers(
    before: Seq<SystemLink>,
    after: Seq<SystemLink>,
    ids: Seq<usize>,
    layouts: Seq<SystemLayout>,
    to_id: usize,
    base: usize,
)
    requires
        ids.len() == layouts.len(),
        shift_fits(layouts, base),
        after == before + links_for(ids, layouts, to_id, base),
    ensures
        after.len() == before.len() + ids.len(),
        forall|j: int| 0 <= j < before.len() ==> #[trigger] after[j] == before[j],
        forall|i: int|
            #![trigger ids[i]]
            0 <= i < ids.len() ==> {
                &&& after[before.len() + i].from_system_idx == ids[i]
                &&& after[before.len() + i].to_system_idx == to_id
                &&& after[before.len() + i].to_input_offset == base + layouts[i].offset
                &&& after[before.len() + i].num_bytes == layouts[i].len
            },
{
    assert forall|i: int|
        #![trigger ids[i]]
        0 <= i < ids.len() implies {
            &&& after[before.len() + i].from_system_idx == ids[i]
            &&& after[before.len() + i].to_system_idx == to_id
            &&& after[before.len() + i].to_input_offset == base + layouts[i].offset
            &&& after[before.len() + i].num_bytes == layouts[i].len
        } by {
        assert(layouts[i].offset + base <= usize::MAX);
        assert(after[before.len() + i] == links_for(ids, layouts, to_id, base)[i]);
    }
}

/// A consumer of a signal of type `In`.
pub trait SystemIn {
    type In;

    /// The index of the consuming system.
    spec fn id_spec(&self) -> usize;

    fn id(&self) -> (id: usize)
        ensures
            id == self.id_spec(),
    ;
}

/// One or more producers whose outputs together form a signal of type `Out`.
pub trait SystemOut {
    type Out;

    /// The producing systems, in order.
    spec fn ids_spec(&self) -> Seq<usize>;

    /// Where each producer's value sits in the composite signal.
    spec fn layouts_spec(&self) -> Seq<SystemLayout>;

    fn ids(&self) -> (ids: &[usize])
        ensures
            ids@ == self.ids_spec(),
            self.layouts_spec().len() == ids@.len(),
    ;

    fn layouts(&self) -> (layouts: Vec<SystemLayout>)
        ensures
            layouts@ == self.layouts_spec(),
    ;

    /// Appends one link per producer into system `to_id`, its offset counted from
    /// `base_offset`.
    fn add_links_to(&self, to_id: usize, base_offset: usize, links: &mut Vec<SystemLink>)
        requires
            shift_fits(self.layouts_spec(), base_offset),
        ensures
            final(links)@ == old(links)@ + links_for(
                self.ids_spec(),
                self.layouts_spec(),
                to_id,
                base_offset,
            ),
            final(links)@.len() == old(links)@.len() + self.layouts_spec().len(),
            forall|j: int| 0 <= j < old(links)@.len() ==> #[trigger] final(links)@[j] == old(links)@[j],
            forall|j: int|
                old(links)@.len() <= j < final(links)@.len() ==> {
                    &&& (#[trigger] final(links)@[j]).from_system_idx == self.ids_spec()[j - old(links)@.len()]
                    &&& final(links)@[j].to_system_idx == to_id
                    &&& final(links)@[j].to_input_offset == base_offset + self.layouts_spec()[j
                        - old(links)@.len()].offset
                    &&& final(links)@[j].num_bytes == self.layouts_spec()[j - old(links)@.len()].len
                },
    ;
}

/// A handle on one system of a pool, typed by its input and output signals.
pub struct SystemRef<In, Out> {
    pub id: [usize; 1],
    pub _io: PhantomData<(In, Out)>,
}

impl<In, Out> Clone for SystemRef<In, Out> {
    fn clone(&self) -> (r: Self)
        ensures
            r.id@ == self.id@,
    {
        SystemRef { id: [self.id[0]], _io: PhantomData }
    }
}

impl<In, Out> Copy for SystemRef<In, Out> {

}

impl<In, Out> SystemRef<In, Out> {
    /// The handle on system `id`.
    pub fn new(id: usize) -> (r: Self)
        ensures
            r.id@ == seq![id],
    {
        SystemRef { id: [id], _io: PhantomData }
    }
}

impl<In, Out> SystemIn for SystemRef<In, Out> {
    type In = In;

    open spec fn id_spec(&self) -> usize {
        self.id@[0]
    }

    fn id(&self) -> (id: usize) {
        self.id[0]
    }
}

impl<In, Out> SystemOut for SystemRef<In, Out> {
    type Out = Out;

    open spec fn ids_spec(&self) -> Seq<usize> {
        self.id@
    }

    open spec fn layouts_spec(&self) -> Seq<SystemLayout> {
        seq![SystemLayout { offset: 0, len: vstd::layout::size_of::<Out>() as usize }]
    }

    fn ids(&self) -> (ids: &[usize]) {
        self.id.as_slice()
    }

    fn layouts(&self) -> (layouts: Vec<SystemLayout>) {
        let mut layouts = Vec::new();
        layouts.push(SystemLayout { offset: 0, len: core::mem::size_of::<Out>() });
        proof {
            assert(layouts@ =~= self.layouts_spec());
        }
        layouts
    }

    fn add_links_to(&self, to_id: usize, base_offset: usize, links: &mut Vec<SystemLink>) {
        links.push(
            SystemLink {
                from_system_idx: self.id[0],
                to_system_idx: to_id,
                to_input_offset: base_offset,
                num_bytes: core::mem::size_of::<Out>(),
            },
        );
        proof {
            assert(final(links)@ =~= old(links)@ + links_for(
                self.ids_spec(),
                self.layouts_spec(),
                to_id,
                base_offset,
            ));
            assert(final(links)@[old(links)@.len() as int].from_system_idx == self.ids_spec()[0]);
        }
    }
}

/// Several producers whose outputs, side by side, form one composite signal of
/// type `Out`: one id and one layout per producer.
pub struct SystemMux<Out> {
    ids: Vec<usize>,
    layouts: Vec<SystemLayout>,
    _io: PhantomData<Out>,
}

impl<Out> SystemMux<Out> {
    /// Each producer has exactly one layout.
    #[verifier::type_invariant]
    spec fn aligned(self) -> bool {
        self.ids@.len() == self.layouts@.len()
    }

    /// The multiplexer of the single producer `value`.
    pub fn from_ref<In>(value: SystemRef<In, Out>) -> (mux: Self)
        ensures
            mux.ids_spec() == value.ids_spec(),
            mux.layouts_spec() == value.layouts_spec(),
            mux.layouts_spec().len() == mux.ids_spec().len(),
            mux.ids_spec() == seq![value.id@[0]],
            mux.layouts_spec().len() == 1,
            mux.layouts_spec()[0].offset == 0,
    {
        let mut ids: Vec<usize> = Vec::new();
        ids.push(value.id[0]);
        proof {
            assert(ids@ =~= value.ids_spec());
        }
        SystemMux { ids, layouts: value.layouts(), _io: PhantomData }
    }
}

impl<T, U> SystemMux<(T, U)> {
    /// The multiplexer of the producers `t` and `u`, whose values sit at byte
    /// offsets `t_offset` and `u_offset` within the pair `(T, U)`.
    pub fn from_pair<P: SystemOut<Out = T>, Q: SystemOut<Out = U>>(
        t: &P,
        u: &Q,
        t_offset: usize,
        u_offset: usize,
    ) -> (mux: Self)
        requires
            shift_fits(t.layouts_spec(), t_offset),
            shift_fits(u.layouts_spec(), u_offset),
        ensures
            mux.ids_spec() == t.ids_spec() + u.ids_spec(),
            mux.layouts_spec() == shifted(t.layouts_spec(), t_offset) + shifted(
                u.layouts_spec(),
                u_offset,
            ),
            mux.layouts_spec().len() == mux.ids_spec().len(),
            mux.layouts_spec().len() == t.layouts_spec().len() + u.layouts_spec().len(),
            forall|i: int|
                #![trigger mux.layouts_spec()[i]]
                0 <= i < t.layouts_spec().len() ==> mux.layouts_spec()[i].offset == t.layouts_spec()[i].offset
                    + t_offset && mux.layouts_spec()[i].len == t.layouts_spec()[i].len,
            forall|i: int|
                #![trigger mux.layouts_spec()[i]]
                t.layouts_spec().len() <= i < mux.layouts_spec().len() ==> mux.layouts_spec()[i].offset
                    == u.layouts_spec()[i - t.layouts_spec().len()].offset + u_offset
                    && mux.layouts_spec()[i].len == u.layouts_spec()[i - t.layouts_spec().len()].len,
    {
        let mut ids: Vec<usize> = Vec::new();
        extend_ids(&mut ids, t.ids());
        extend_ids(&mut ids, u.ids());
        let mut t_lay = shift_layouts(t.layouts(), t_offset);
        let mut u_lay = shift_layouts(u.layouts(), u_offset);
        t_lay.append(&mut u_lay);
        SystemMux { ids, layouts: t_lay, _io: PhantomData }
    }
}

impl<T, U, V> SystemMux<(T, U, V)> {
    /// The multiplexer of the producers `t`, `u` and `v`, whose values sit at byte
    /// offsets `t_offset`, `u_offset` and `v_offset` within the triple `(T, U, V)`.
    pub fn from_triple<P: SystemOut<Out = T>, Q: SystemOut<Out = U>, R: SystemOut<Out = V>>(
        t: &P,
        u: &Q,
        v: &R,
        t_offset: usize,
        u_offset: usize,
        v_offset: usize,
    ) -> (mux: Self)
        requires
            shift_fits(t.layouts_spec(), t_offset),
            shift_fits(u.layouts_spec(), u_offset),
            shift_fits(v.layouts_spec(), v_offset),
        ensures
            mux.ids_spec() == t.ids_spec() + u.ids_spec() + v.ids_spec(),
            mux.layouts_spec() == shifted(t.layouts_spec(), t_offset) + shifted(
                u.layouts_spec(),
                u_offset,
            ) + shifted(v.layouts_spec(), v_offset),
            mux.layouts_spec().len() == mux.ids_spec().len(),
            mux.layouts_spec().len() == t.layouts_spec().len() + u.layouts_spec().len()
                + v.layouts_spec().len(),
            forall|i: int|
                #![trigger mux.layouts_spec()[i]]
                0 <= i < t.layouts_spec().len() ==> mux.layouts_spec()[i].offset == t.layouts_spec()[i].offset
                    + t_offset && mux.layouts_spec()[i].len == t.layouts_spec()[i].len,
            forall|i: int|
                #![trigger mux.layouts_spec()[i]]
                t.layouts_spec().len() <= i < t.layouts_spec().len() + u.layouts_spec().len()
                    ==> mux.layouts_spec()[i].offset == u.layouts_spec()[i - t.layouts_spec().len()].offset
                    + u_offset && mux.layouts_spec()[i].len == u.layouts_spec()[i - t.layouts_spec().len()].len,
            forall|i: int|
                #![trigger mux.layouts_spec()[i]]
                t.layouts_spec().len() + u.layouts_spec().len() <= i < mux.layouts_spec().len()
                    ==> mux.layouts_spec()[i].offset == v.layouts_spec()[i - t.layouts_spec().len()
                    - u.layouts_spec().len()].offset + v_offset && mux.layouts_spec()[i].len
                    == v.layouts_spec()[i - t.layouts_spec().len() - u.layouts_spec().len()].len,
    {
        let mut ids: Vec<usize> = Vec::new();
        extend_ids(&mut ids, t.ids());
        extend_ids(&mut ids, u.ids());
        extend_ids(&mut ids, v.ids());
        let mut t_lay = shift_layouts(t.layouts(), t_offset);
        let mut u_lay = shift_layouts(u.layouts(), u_offset);
        let mut v_lay = shift_layouts(v.layouts(), v_offset);
        t_lay.append(&mut u_lay);
        t_lay.append(&mut v_lay);
        SystemMux { ids, layouts: t_lay, _io: PhantomData }
    }
}

impl<Out> SystemOut for SystemMux<Out> {
    type Out = Out;

    closed spec fn ids_spec(&self) -> Seq<usize> {
        self.ids@
    }

    closed spec fn layouts_spec(&self) -> Seq<SystemLayout> {
        self.layouts@
    }

    fn ids(&self) -> (ids: &[usize]) {
        proof {
            use_type_invariant(self);
        }
        self.ids.as_slice()
    }

    fn layouts(&self) -> (layouts: Vec<SystemLayout>) {
        let layouts = self.layouts.clone();
        proof {
            assert(layouts@ =~= self.layouts@);
        }
        layouts
    }

    fn add_links_to(&self, to_id: usize, base_offset: usize, links: &mut Vec<SystemLink>) {
        proof {
            use_type_invariant(self);
        }
        let ghost start = links@;
        let mut i: usize = 0;
        while i < self.layouts.len()
            invariant
                0 <= i <= self.layouts@.len(),
                self.ids@.len() == self.layouts@.len(),
                shift_fits(self.layouts@, base_offset),
                links@ == start + links_for(self.ids@, self.layouts@, to_id, base_offset).subrange(
                    0,
                    i as int,
                ),
                links@.len() == start.len() + i,
                forall|j: int| 0 <= j < start.len() ==> #[trigger] links@[j] == start[j],
                forall|j: int|
                    start.len() <= j < links@.len() ==> {
                        &&& (#[trigger] links@[j]).from_system_idx == self.ids@[j - start.len()]
                        &&& links@[j].to_system_idx == to_id
                        &&& links@[j].to_input_offset == base_offset + self.layouts@[j - start.len()].offset
                        &&& links@[j].num_bytes == self.layouts@[j - start.len()].len
                    },
            decreases self.layouts@.len() - i,
        {
            let layout = self.layouts[i];
            proof {
                assert(self.layouts@[i as int].offset + base_offset <= usize::MAX);
            }
            links.push(
                SystemLink {
                    from_system_idx: self.ids[i],
                    to_system_idx: to_id,
                    to_input_offset: base_offset + layout.offset,
                    num_bytes: layout.len,
                },
            );
            proof {
                let all = links_for(self.ids@, self.layouts@, to_id, base_offset);
                assert(all.subrange(0, i + 1) =~= all.subrange(0, i as int).push(all[i as int]));
            }
            i += 1;
        }
        proof {
            let all = links_for(self.ids@, self.layouts@, to_id, base_offset);
            assert(all.subrange(0, all.len() as int) =~= all);
        }
    }
}

/// Appends the values of `src` to `dst`.
fn extend_ids(dst: &mut Vec<usize>, src: &[usize])
    ensures
        final(dst)@ == old(dst)@ + src@,
{
    let mut i: usize = 0;
    while i < src.len()
        invariant
            0 <= i <= src@.len(),
            dst@ == old(dst)@ + src@.subrange(0, i as int),
        decreases src@.len() - i,
    {
        dst.push(src[i]);
        proof {
            assert(src@.subrange(0, i + 1) =~= src@.subrange(0, i as int).push(src@[i as int]));
        }
        i += 1;
    }
    proof {
        assert(src@.subrange(0, src@.len() as int) =~= src@);
    }
}

/// `layouts` with every offset moved by `by`.
fn shift_layouts(layouts: Vec<SystemLayout>, by: usize) -> (moved: Vec<SystemLayout>)
    requires
        shift_fits(layouts@, by),
    ensures
        moved@ == shifted(layouts@, by),
        moved@.len() == layouts@.len(),
        forall|i: int|
            #![trigger moved@[i]]
            0 <= i < moved@.len() ==> moved@[i].offset == layouts@[i].offset + by && moved@[i].len
                == layouts@[i].len,
{
    let mut moved = layouts;
    let ghost orig = moved@;
    let mut i: usize = 0;
    while i < moved.len()
        invariant
            0 <= i <= moved@.len(),
            moved@.len() == orig.len(),
            shift_fits(orig, by),
            forall|j: int| 0 <= j < i ==> #[trigger] moved@[j] == shifted(orig, by)[j],
            forall|j: int|
                0 <= j < i ==> (#[trigger] moved@[j]).offset == orig[j].offset + by && moved@[j].len
                    == orig[j].len,
            forall|j: int| i <= j < moved@.len() ==> #[trigger] moved@[j] == orig[j],
        decreases moved@.len() - i,
    {
        let l = moved[i];
        proof {
            assert(orig[i as int].offset + by <= usize::MAX);
        }
        moved[i] = SystemLayout { offset: l.offset + by, len: l.len };
        i += 1;
    }
    proof {
        assert(moved@ =~= shifted(orig, by));
    }
    moved
}

} // verus!
