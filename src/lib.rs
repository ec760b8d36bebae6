//! Registration and exposition of metrics.
//!
//! Descriptors live in storage that the caller owns (a vector of slots);
//! a [`Registry`] threads them into an intrusive singly linked list by
//! writing the link field inside each descriptor, and an encode pass walks
//! that list, handing each descriptor and then its metric's payload to an
//! [`Encoder`].
use vstd::prelude::*;

use crate::counter::{counter_text, decimal_digits};

pub mod counter;
pub mod text;

pub use counter::{decimal_text, Counter};
pub use text::TextEncoder;

verus! {

/// The metadata of a descriptor, as a mathematical value.
pub struct DescMeta {
    pub name: Seq<char>,
    pub help: Seq<char>,
    pub unit: Option<Seq<char>>,
    pub labels: Seq<Seq<char>>,
}

/// One thing an encoder has been handed: a descriptor's metadata or a
/// chunk of payload bytes.
pub enum Emit {
    Desc(DescMeta),
    Bytes(Seq<u8>),
}

/// A trace `t` after `s` has been handed on; no trace stays none.
pub open spec fn appended(t: Option<Seq<Emit>>, s: Seq<Emit>) -> Option<Seq<Emit>> {
    match t {
        Some(t) => Some(t + s),
        None => None,
    }
}

/// An encoder encodes metrics into bytes.
///
/// `trace` is what the encoder has been handed so far, in order, when it
/// keeps one. An encoder that keeps none (`None`, the default) stays without
/// one, and the contracts below then say nothing of what it was handed.
pub trait Encoder {
    open spec fn trace(&self) -> Option<Seq<Emit>> {
        None
    }

    /// Writes out the descriptor of a metric.
    fn write_desc(&mut self, desc: &MetricDesc)
        ensures
            final(self).trace() == appended(old(self).trace(), seq![Emit::Desc(desc.meta())]),
    ;

    /// Called by a metric to encode itself.
    fn write(&mut self, bytes: &[u8])
        ensures
            final(self).trace() == appended(old(self).trace(), seq![Emit::Bytes(bytes@)]),
    ;
}

/// `after` is `before` followed by payload chunks only.
pub open spec fn payload_appended(before: Option<Seq<Emit>>, after: Option<Seq<Emit>>) -> bool {
    match (before, after) {
        (Some(b), Some(a)) => {
            &&& b.len() <= a.len()
            &&& a.subrange(0, b.len() as int) == b
            &&& forall|i: int| b.len() <= i < a.len() ==> a[i] is Bytes
        },
        (None, None) => true,
        _ => false,
    }
}

/// A metric renders a snapshot of its current state as payload bytes.
pub trait Metric {
    /// Encode this metric into a form expected by a given Encoder.
    fn encode<E: Encoder>(&self, enc: &mut E)
        ensures
            payload_appended(old(enc).trace(), final(enc).trace()),
    ;
}

/// The kinds of metric that a descriptor can refer to.
#[derive(Debug, Clone, Copy, PartialEq, Eq, Structural)]
pub enum MetricType {
    Counter,
}

/// Where a descriptor's link points.
enum LinkState {
    /// Not registered yet.
    Unlinked,
    /// Registered, last of its list.
    End,
    /// Registered, followed by the descriptor in the given slot.
    To(usize),
}

/// The link field of a descriptor. Only a registry sets it.
pub struct Link {
    state: LinkState,
}

impl Link {
    /// Whether a registration has set this link.
    pub closed spec fn is_set(&self) -> bool {
        !(self.state is Unlinked)
    }
}

/// A metric descriptor exists for the purposes of registering a metric,
/// along with its metadata.
pub struct MetricDesc<'a> {
    pub name: &'a str,
    pub help: &'a str,
    pub unit: Option<&'a str>,
    pub labels: &'a [&'a str],
    /// The metric whose payload follows this descriptor's metadata.
    pub metric: &'a Counter,
    /// Set once, by the registration of this descriptor.
    pub next: Link,
}

/// The metadata of a descriptor built from the given fields.
pub open spec fn meta_of(name: &str, help: &str, unit: Option<&str>, labels: &[&str]) -> DescMeta {
    DescMeta {
        name: name@,
        help: help@,
        unit: match unit {
            Some(u) => Some(u@),
            None => None,
        },
        labels: labels@.map_values(|l: &str| l@),
    }
}

impl<'a> MetricDesc<'a> {
    /// The metadata that encoders are handed for this descriptor.
    pub open spec fn meta(&self) -> DescMeta {
        meta_of(self.name, self.help, self.unit, self.labels)
    }

    /// Whether the link field has been set by a registration.
    pub open spec fn is_linked(&self) -> bool {
        self.next.is_set()
    }

    pub fn new(
        name: &'a str,
        help: &'a str,
        unit: Option<&'a str>,
        labels: &'a [&'a str],
        metric: &'a Counter,
    ) -> (r: Self)
        ensures
            r.name == name,
            r.help == help,
            r.unit == unit,
            r.labels == labels,
            r.metric == metric,
            r.meta() == meta_of(name, help, unit, labels),
            !r.is_linked(),
    {
        MetricDesc { name, help, unit, labels, metric, next: Link { state: LinkState::Unlinked } }
    }
}

/// Everything an encode pass hands out for descriptors with metadata
/// `metas` whose metrics render as `payloads`: per descriptor, its
/// metadata, then its payload.
pub open spec fn emitted(metas: Seq<DescMeta>, payloads: Seq<Seq<u8>>) -> Seq<Emit>
    decreases metas.len(),
{
    if metas.len() == 0 {
        Seq::empty()
    } else {
        emitted(metas.drop_last(), payloads.drop_last()) + seq![
            Emit::Desc(metas.last()),
            Emit::Bytes(payloads.last()),
        ]
    }
}

/// What an encode pass hands out is laid out in pairs: the metadata of the
/// descriptor visited `k`-th at `2k`, its payload at `2k + 1`, and nothing
/// else.
pub proof fn lemma_emitted_layout(metas: Seq<DescMeta>, payloads: Seq<Seq<u8>>)
    requires
        payloads.len() == metas.len(),
    ensures
        emitted(metas, payloads).len() == 2 * metas.len(),
        forall|k: int|
            0 <= k < metas.len() ==> emitted(metas, payloads)[2 * k] == Emit::Desc(
                #[trigger] metas[k],
            ) && emitted(metas, payloads)[2 * k + 1] == Emit::Bytes(payloads[k]),
    decreases metas.len(),
{
    if metas.len() > 0 {
        let m = metas.drop_last();
        let p = payloads.drop_last();
        lemma_emitted_layout(m, p);
        let e = emitted(metas, payloads);
        assert forall|k: int| 0 <= k < metas.len() implies e[2 * k] == Emit::Desc(
            #[trigger] metas[k],
        ) && e[2 * k + 1] == Emit::Bytes(payloads[k]) by {
            if k < m.len() {
                assert(m[k] == metas[k]);
                assert(e[2 * k] == emitted(m, p)[2 * k]);
                assert(e[2 * k + 1] == emitted(m, p)[2 * k + 1]);
            }
        }
    }
}

/// Each of `payloads` is the text of a counter snapshot.
pub open spec fn counter_payloads(payloads: Seq<Seq<u8>>) -> bool {
    forall|j: int| 0 <= j < payloads.len() ==> #[trigger] counter_text(payloads[j])
}

/// The reason a registration is refused.
#[derive(Debug, Clone, Copy, PartialEq, Eq, Structural)]
pub enum RegisterError {
    /// The descriptor's link field is already set: it has been registered
    /// before, here or in another registry.
    AlreadyRegistered,
}

/// A registry retains a collection of metrics.
///
/// It holds only the slot of the most recently registered descriptor; the
/// rest of the chain runs through the link fields of the descriptors, which
/// live in storage that the caller owns and must keep for as long as the
/// registry is used. A slot is a descriptor's identity: two descriptors with
/// the same name are distinct.
///
/// Registration takes the registry and the slots by `&mut`, so callers in
/// several contexts serialise it themselves; counters are atomic and can be
/// incremented from anywhere while the descriptors are registered.
pub struct Registry {
    head: Option<usize>,
    history: Ghost<Seq<usize>>,
}

impl Registry {
    /// The slots registered so far, oldest first.
    pub closed spec fn registered(&self) -> Seq<usize> {
        self.history@
    }

    /// The slots in the order in which an encode pass visits them.
    pub open spec fn visit_order(&self) -> Seq<usize> {
        self.registered().reverse()
    }

    /// The metadata that an encode pass hands out, in order.
    pub open spec fn visit_metas(&self, descs: Seq<MetricDesc>) -> Seq<DescMeta> {
        self.visit_order().map_values(|i: usize| descs[i as int].meta())
    }

    /// The chain from the head runs through the registered slots, newest
    /// first, each once, and ends at the oldest.
    pub closed spec fn wf(&self, descs: Seq<MetricDesc>) -> bool {
        let order = self.visit_order();
        &&& order.no_duplicates()
        &&& forall|k: int| 0 <= k < order.len() ==> #[trigger] order[k] < descs.len()
        &&& self.head == (if order.len() == 0 {
            None::<usize>
        } else {
            Some(order[0])
        })
        &&& forall|k: int|
            0 <= k < order.len() ==> (#[trigger] descs[order[k] as int]).next.state == (if k
                + 1 < order.len() {
                LinkState::To(order[k + 1])
            } else {
                LinkState::End
            })
    }

    pub fn new() -> (r: Self)
        ensures
            r.registered() == Seq::<usize>::empty(),
            forall|descs: Seq<MetricDesc>| r.wf(descs),
    {
        Registry { head: None, history: Ghost(Seq::empty()) }
    }

    /// Register the descriptor in slot `id` of `descs`: it is linked in at
    /// the head of the list. A descriptor whose link is already set is
    /// refused and nothing changes.
    pub fn register<'a>(&mut self, descs: &mut Vec<MetricDesc<'a>>, id: usize) -> (r: Result<
        (),
        RegisterError,
    >)
        requires
            old(self).wf(old(descs)@),
            id < old(descs)@.len(),
        ensures
            r is Err <==> old(descs)@[id as int].is_linked(),
            r is Err ==> final(self).registered() == old(self).registered() && final(descs)@
                == old(descs)@,
            r is Ok ==> final(self).registered() == old(self).registered().push(id),
            final(descs)@.len() == old(descs)@.len(),
            forall|j: int|
                0 <= j < old(descs)@.len() && j != id ==> final(descs)@[j] == old(descs)@[j],
            final(descs)@[id as int].name == old(descs)@[id as int].name,
            final(descs)@[id as int].help == old(descs)@[id as int].help,
            final(descs)@[id as int].unit == old(descs)@[id as int].unit,
            final(descs)@[id as int].labels == old(descs)@[id as int].labels,
            final(descs)@[id as int].metric == old(descs)@[id as int].metric,
            final(descs)@[id as int].is_linked(),
            final(self).wf(final(descs)@),
            forall|other: Registry| #[trigger]
                other.wf(old(descs)@) ==> other.wf(final(descs)@),
    {
        let linked = match descs[id].next.state {
            LinkState::Unlinked => false,
            _ => true,
        };
        if linked {
            return Err(RegisterError::AlreadyRegistered);
        }
        let ghost old_order = self.visit_order();
        proof {
            assert forall|k: int| 0 <= k < old_order.len() implies old_order[k] != id by {
                assert(descs@[old_order[k] as int].next.is_set());
            }
        }
        let link = match self.head {
            Some(h) => Link { state: LinkState::To(h) },
            None => Link { state: LinkState::End },
        };
        descs[id].next = link;
        self.head = Some(id);
        self.history = Ghost(self.history@.push(id));
        proof {
            assert(self.visit_order() =~= seq![id] + old_order);
            assert forall|other: Registry| #[trigger]
                other.wf(old(descs)@) implies other.wf(descs@) by {
                let order = other.visit_order();
                assert forall|k: int| 0 <= k < order.len() implies order[k] != id by {
                    assert(old(descs)@[order[k] as int].next.is_set());
                }
                assert forall|k: int| 0 <= k < order.len() implies #[trigger] descs@[order[k] as int]
                    == old(descs)@[order[k] as int] by {
                    assert(order[k] != id);
                }
            }
        }
        Ok(())
    }

    /// Walk the list from the head and, for each descriptor, hand its
    /// metadata to `enc` and then let its metric write its payload.
    pub fn encode<'a, E: Encoder>(&self, descs: &Vec<MetricDesc<'a>>, enc: &mut E)
        requires
            self.wf(descs@),
        ensures
            exists|payloads: Seq<Seq<u8>>|
                {
                    &&& payloads.len() == self.visit_order().len()
                    &&& counter_payloads(payloads)
                    &&& final(enc).trace() == appended(old(enc).trace(), #[trigger] emitted(
                        self.visit_metas(descs@),
                        payloads,
                    ))
                },
    {
        let ghost order = self.visit_order();
        let ghost metas = self.visit_metas(descs@);
        let ghost start = enc.trace();
        let ghost mut payloads: Seq<Seq<u8>> = Seq::empty();
        let ghost mut k: int = 0;
        let mut cursor = self.head;
        proof {
            assert(metas.take(0) =~= Seq::<DescMeta>::empty());
            if let Some(t) = start {
                assert(t + emitted(metas.take(0), payloads) =~= t);
            }
        }
        while cursor.is_some()
            invariant
                self.wf(descs@),
                order == self.visit_order(),
                metas == self.visit_metas(descs@),
                0 <= k <= order.len(),
                cursor == (if k < order.len() {
                    Some(order[k])
                } else {
                    None::<usize>
                }),
                payloads.len() == k,
                counter_payloads(payloads),
                enc.trace() == appended(start, emitted(metas.take(k), payloads)),
            decreases order.len() - k,
        {
            let id = cursor.unwrap();
            let desc = &descs[id];
            let ghost before = enc.trace();
            enc.write_desc(desc);
            desc.metric.encode(enc);
            proof {
                let b = choose|b: Seq<u8>|
                    counter_text(b) && enc.trace() == appended(
                        appended(before, seq![Emit::Desc(desc.meta())]),
                        seq![Emit::Bytes(b)],
                    );
                let prev = payloads;
                payloads = payloads.push(b);
                assert(metas.take(k + 1).drop_last() =~= metas.take(k));
                assert(payloads.drop_last() =~= prev);
                assert(metas.take(k + 1).last() == desc.meta());
                let done = emitted(metas.take(k), prev);
                assert(emitted(metas.take(k + 1), payloads) == done + seq![
                    Emit::Desc(desc.meta()),
                    Emit::Bytes(b),
                ]);
                if let Some(t) = start {
                    assert((t + done) + seq![Emit::Desc(desc.meta())] + seq![Emit::Bytes(b)]
                        =~= t + emitted(metas.take(k + 1), payloads));
                }
                k = k + 1;
            }
            cursor = match desc.next.state {
                LinkState::To(n) => Some(n),
                _ => None,
            };
        }
        proof {
            assert(metas.take(k) =~= metas);
        }
    }
}

impl Default for Registry {
    fn default() -> (r: Self)
        ensures
            r.registered() == Seq::<usize>::empty(),
            forall|descs: Seq<MetricDesc>| r.wf(descs),
    {
        Registry::new()
    }
}

/// Every registered descriptor is visited exactly once, and nothing else
/// is visited: the visit order holds as many slots as were registered, and
/// each registered slot at exactly one position.
pub proof fn lemma_each_registered_visited_once(reg: &Registry, descs: Seq<MetricDesc>, id: usize)
    requires
        reg.wf(descs),
    ensures
        reg.visit_order().len() == reg.registered().len(),
        reg.visit_metas(descs).len() == reg.registered().len(),
        reg.registered().contains(id) <==> exists|k: int|
            0 <= k < reg.visit_order().len() && reg.visit_order()[k] == id,
        forall|k1: int, k2: int|
            0 <= k1 < reg.visit_order().len() && 0 <= k2 < reg.visit_order().len()
                && reg.visit_order()[k1] == id && reg.visit_order()[k2] == id ==> k1 == k2,
{
    let order = reg.visit_order();
    let n = reg.registered().len();
    if reg.registered().contains(id) {
        let j = choose|j: int| 0 <= j < n && reg.registered()[j] == id;
        assert(order[n - 1 - j] == id);
    }
    if exists|k: int| 0 <= k < order.len() && order[k] == id {
        let k = choose|k: int| 0 <= k < order.len() && order[k] == id;
        assert(reg.registered()[n - 1 - k] == id);
    }
}

/// The last registered descriptor is visited first: the visit order is
/// the registration order reversed.
pub proof fn lemma_newest_visited_first(reg: &Registry, descs: Seq<MetricDesc>)
    requires
        reg.wf(descs),
    ensures
        reg.visit_order().len() == reg.registered().len(),
        forall|k: int|
            0 <= k < reg.registered().len() ==> #[trigger] reg.visit_order()[k]
                == reg.registered()[reg.registered().len() - 1 - k],
{
}

/// A registered descriptor has its link set, so registering it again is
/// refused and leaves the list as it was.
pub proof fn lemma_registered_is_linked(reg: &Registry, descs: Seq<MetricDesc>, id: usize)
    requires
        reg.wf(descs),
        reg.registered().contains(id),
    ensures
        id < descs.len(),
        descs[id as int].is_linked(),
{
    let n = reg.registered().len();
    let j = choose|j: int| 0 <= j < n && reg.registered()[j] == id;
    let order = reg.visit_order();
    assert(order[n - 1 - j] == id);
    assert(descs[order[n - 1 - j] as int].next.is_set());
}

/// An encode pass over an empty registry hands the encoder nothing.
pub proof fn lemma_empty_registry_emits_nothing(
    reg: &Registry,
    descs: Seq<MetricDesc>,
    payloads: Seq<Seq<u8>>,
)
    requires
        reg.registered().len() == 0,
    ensures
        emitted(reg.visit_metas(descs), payloads) == Seq::<Emit>::empty(),
{
}

} // verus!
