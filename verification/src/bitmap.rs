//! Sets of pods, held as a fixed 256-bit bitmap.

use vstd::prelude::*;
use vstd::std_specs::bits::*;

verus! {

/// How many pods a [`HostBitmap`] can hold: pod ids run from 0 to `MAX_PODS - 1`.
pub const MAX_PODS: usize = 256;

const WORDS: usize = 4;

const BITS_PER_WORD: usize = 64;

/// Whether bit `i` of `word` is set.
spec fn bit(word: u64, i: u64) -> bool {
    word & (1u64 << i) != 0
}

/// A set of pod ids below [`MAX_PODS`].
#[derive(Clone, Copy, Debug, PartialEq, Eq)]
pub struct HostBitmap {
    words: [u64; WORDS],
}

impl View for HostBitmap {
    type V = Set<usize>;

    closed spec fn view(&self) -> Set<usize> {
        Set::new(
            |pod_id: usize|
                pod_id < MAX_PODS && bit(
                    self.words@[pod_id as int / 64],
                    (pod_id as int % 64) as u64,
                ),
        )
    }
}

/// The members of `pods` below `bound`, in ascending order.
pub open spec fn ascending_below(pods: Set<usize>, bound: nat) -> Seq<usize>
    decreases bound,
{
    if bound == 0 {
        seq![]
    } else {
        let pod_id = (bound - 1) as usize;
        if pods.contains(pod_id) {
            ascending_below(pods, (bound - 1) as nat).push(pod_id)
        } else {
            ascending_below(pods, (bound - 1) as nat)
        }
    }
}

/// The pods of a bitmap in ascending order.
pub open spec fn ascending(pods: Set<usize>) -> Seq<usize> {
    ascending_below(pods, MAX_PODS as nat)
}

/// The pod ids below `count`.
pub open spec fn pods_below(count: nat) -> Set<usize> {
    Set::new(|pod_id: usize| pod_id < count)
}

/// Something to be done for each pod of a bitmap in turn. A visitor is either a closure over the
/// pod id or a value that gathers up what it is shown.
pub trait PodVisitor: Sized {
    /// Whether the visitor can be shown pods.
    spec fn ready(&self) -> bool;

    /// Whether `next` is what becomes of this visitor when it is shown `pod_id`.
    spec fn visited(&self, pod_id: usize, next: &Self) -> bool;

    fn visit(&mut self, pod_id: usize)
        requires
            old(self).ready(),
            pod_id < MAX_PODS,
        ensures
            final(self).ready(),
            old(self).visited(pod_id, final(self)),
    ;
}

impl<F: FnMut(usize)> PodVisitor for F {
    open spec fn ready(&self) -> bool {
        forall|pod_id: usize| pod_id < MAX_PODS ==> call_requires(*self, (pod_id,))
    }

    open spec fn visited(&self, pod_id: usize, next: &Self) -> bool {
        call_ensures(*self, (pod_id,), ())
    }

    fn visit(&mut self, pod_id: usize) {
        self(pod_id)
    }
}

/// Whether `trace` is the history of a visitor shown `pods` one after the other: it starts as
/// `trace[0]` and has become `trace[i]` after the first `i` of them.
pub open spec fn visits<V: PodVisitor>(trace: Seq<V>, pods: Seq<usize>) -> bool {
    &&& trace.len() == pods.len() + 1
    &&& forall|i: int|
        0 <= i < pods.len() ==> (#[trigger] trace[i]).visited(pods[i], &trace[i + 1])
}

/// Gathers the pods that it is shown.
struct PodCollector {
    pods: Vec<usize>,
}

impl PodVisitor for PodCollector {
    closed spec fn ready(&self) -> bool {
        true
    }

    closed spec fn visited(&self, pod_id: usize, next: &Self) -> bool {
        next.pods@ == self.pods@.push(pod_id)
    }

    fn visit(&mut self, pod_id: usize) {
        self.pods.push(pod_id);
    }
}

/// Counts the pods that it is shown.
struct PodCounter {
    count: usize,
}

impl PodVisitor for PodCounter {
    closed spec fn ready(&self) -> bool {
        true
    }

    closed spec fn visited(&self, pod_id: usize, next: &Self) -> bool {
        self.count < usize::MAX ==> next.count == self.count + 1
    }

    fn visit(&mut self, pod_id: usize) {
        self.count = self.count.saturating_add(1);
    }
}

proof fn lemma_bit_ops(a: u64, b: u64, i: u64)
    by (bit_vector)
    requires
        i < 64,
    ensures
        (a & b) & (1u64 << i) != 0 <==> (a & (1u64 << i) != 0 && b & (1u64 << i) != 0),
        (a | b) & (1u64 << i) != 0 <==> (a & (1u64 << i) != 0 || b & (1u64 << i) != 0),
        (a & !b) & (1u64 << i) != 0 <==> (a & (1u64 << i) != 0 && b & (1u64 << i) == 0),
        0u64 & (1u64 << i) == 0,
{
}

proof fn lemma_one_bit(i: u64, j: u64)
    by (bit_vector)
    requires
        i < 64,
        j < 64,
    ensures
        (1u64 << i) & (1u64 << j) != 0 <==> i == j,
{
}

/// Clearing the lowest set bit `low` of `word` leaves the others.
proof fn lemma_clear_lowest(word: u64, low: u64, i: u64)
    by (bit_vector)
    requires
        word != 0,
        low < 64,
        i < 64,
        word << ((64 - low) as u64) == 0,
        (word >> low) & 1 == 1,
    ensures
        word & (1u64 << low) != 0,
        i < low ==> word & (1u64 << i) == 0,
        (word & ((word - 1) as u64)) & (1u64 << i) != 0 <==> (word & (1u64 << i) != 0 && i != low),
{
}

/// The trailing-zero count of a nonzero word is its lowest set bit.
proof fn lemma_lowest_bit(word: u64, i: u64)
    requires
        word != 0,
        i < 64,
    ensures
        u64_trailing_zeros(word) < 64,
        bit(word, u64_trailing_zeros(word) as u64),
        i < u64_trailing_zeros(word) ==> !bit(word, i),
        bit(word & ((word - 1) as u64), i) <==> (bit(word, i) && i != u64_trailing_zeros(word)),
{
    axiom_u64_trailing_zeros(word);
    lemma_clear_lowest(word, u64_trailing_zeros(word) as u64, i);
}

/// Between two bounds with no member between them, the ascending members are the same.
proof fn lemma_ascending_gap(pods: Set<usize>, low: nat, high: nat)
    requires
        low <= high <= MAX_PODS,
        forall|pod_id: usize| low <= pod_id < high ==> !pods.contains(pod_id),
    ensures
        ascending_below(pods, low) == ascending_below(pods, high),
    decreases high,
{
    if low < high {
        assert(!pods.contains((high - 1) as usize));
        lemma_ascending_gap(pods, low, (high - 1) as nat);
    }
}

impl HostBitmap {
    /// Membership, word by word.
    proof fn lemma_view(&self, word_index: int, i: u64)
        requires
            0 <= word_index < WORDS,
            i < 64,
        ensures
            self@.contains((word_index * 64 + i) as usize) <==> bit(self.words@[word_index], i),
    {
        let pod_id = (word_index * 64 + i) as usize;
        assert(pod_id as int / 64 == word_index && pod_id as int % 64 == i as int);
    }

    /// The bitmap without pods.
    pub fn empty() -> (bitmap: Self)
        ensures
            bitmap@ == Set::<usize>::empty(),
    {
        let bitmap = Self { words: [0, 0, 0, 0] };
        assert forall|pod_id: usize| !bitmap@.contains(pod_id) by {
            if pod_id < MAX_PODS {
                lemma_bit_ops(0, 0, (pod_id as int % 64) as u64);
            }
        }
        assert(bitmap@ =~= Set::<usize>::empty());
        bitmap
    }

    /// Adds `pod_id`. A pod id that does not fit is ignored.
    pub fn set(&mut self, pod_id: usize)
        ensures
            final(self)@ == if pod_id < MAX_PODS {
                old(self)@.insert(pod_id)
            } else {
                old(self)@
            },
    {
        if pod_id >= MAX_PODS {
            return ;
        }
        let word_index: usize = pod_id / BITS_PER_WORD;
        let mask: u64 = 1u64 << (pod_id % BITS_PER_WORD);
        self.words[word_index] = self.words[word_index] | mask;
        assert forall|other: usize| #[trigger] self@.contains(other) <==> old(self)@.insert(
            pod_id,
        ).contains(other) by {
            if other < MAX_PODS {
                let i = (pod_id as int % 64) as u64;
                let j = (other as int % 64) as u64;
                lemma_bit_ops(old(self).words@[word_index as int], mask, j);
                lemma_one_bit(i, j);
                assert(other == pod_id <==> other as int / 64 == pod_id as int / 64 && i == j);
            }
        }
        assert(self@ =~= old(self)@.insert(pod_id));
    }

    /// Removes `pod_id`. A pod id that does not fit is ignored: it is never a member.
    pub fn clear(&mut self, pod_id: usize)
        ensures
            final(self)@ == old(self)@.remove(pod_id),
    {
        if pod_id >= MAX_PODS {
            assert(self@ =~= old(self)@.remove(pod_id));
            return ;
        }
        let word_index: usize = pod_id / BITS_PER_WORD;
        let mask: u64 = 1u64 << (pod_id % BITS_PER_WORD);
        self.words[word_index] = self.words[word_index] & !mask;
        assert forall|other: usize| #[trigger] self@.contains(other) <==> old(self)@.remove(
            pod_id,
        ).contains(other) by {
            if other < MAX_PODS {
                let i = (pod_id as int % 64) as u64;
                let j = (other as int % 64) as u64;
                lemma_bit_ops(old(self).words@[word_index as int], mask, j);
                lemma_one_bit(i, j);
                assert(other == pod_id <==> other as int / 64 == pod_id as int / 64 && i == j);
            }
        }
        assert(self@ =~= old(self)@.remove(pod_id));
    }

    /// Whether `pod_id` is a member.
    pub fn contains(&self, pod_id: usize) -> (member: bool)
        ensures
            member == self@.contains(pod_id),
    {
        if pod_id >= MAX_PODS {
            return false;
        }
        (self.words[pod_id / BITS_PER_WORD] & (1u64 << (pod_id % BITS_PER_WORD))) != 0
    }

    /// Whether there is no member.
    pub fn is_empty(&self) -> (empty: bool)
        ensures
            empty == (self@ == Set::<usize>::empty()),
    {
        let mut i: usize = 0;
        while i < WORDS
            invariant
                i <= WORDS,
                forall|k: int| 0 <= k < i ==> self.words@[k] == 0,
            decreases WORDS - i,
        {
            if self.words[i] != 0 {
                proof {
                    let word = self.words@[i as int];
                    lemma_lowest_bit(word, 0);
                    self.lemma_view(i as int, u64_trailing_zeros(word) as u64);
                    assert(self@.contains((i * 64 + u64_trailing_zeros(word)) as usize));
                }
                return false;
            }
            i = i + 1;
        }
        assert forall|pod_id: usize| !self@.contains(pod_id) by {
            if pod_id < MAX_PODS {
                lemma_bit_ops(0, 0, (pod_id as int % 64) as u64);
            }
        }
        assert(self@ =~= Set::<usize>::empty());
        true
    }

    /// The pods that are in both bitmaps.
    pub fn and(&self, other: Self) -> (both: Self)
        ensures
            both@ == self@.intersect(other@),
    {
        let mut words: [u64; WORDS] = [0, 0, 0, 0];
        let mut i: usize = 0;
        while i < WORDS
            invariant
                i <= WORDS,
                forall|k: int| 0 <= k < i ==> words@[k] == self.words@[k] & other.words@[k],
            decreases WORDS - i,
        {
            words[i] = self.words[i] & other.words[i];
            i = i + 1;
        }
        let both = Self { words };
        assert forall|pod_id: usize| #[trigger]
            both@.contains(pod_id) <==> self@.intersect(other@).contains(pod_id) by {
            if pod_id < MAX_PODS {
                let k = pod_id as int / 64;
                lemma_bit_ops(self.words@[k], other.words@[k], (pod_id as int % 64) as u64);
            }
        }
        assert(both@ =~= self@.intersect(other@));
        both
    }

    /// The pods that are in at least one of the bitmaps.
    pub fn or(&self, other: Self) -> (either: Self)
        ensures
            either@ == self@.union(other@),
    {
        let mut words: [u64; WORDS] = [0, 0, 0, 0];
        let mut i: usize = 0;
        while i < WORDS
            invariant
                i <= WORDS,
                forall|k: int| 0 <= k < i ==> words@[k] == self.words@[k] | other.words@[k],
            decreases WORDS - i,
        {
            words[i] = self.words[i] | other.words[i];
            i = i + 1;
        }
        let either = Self { words };
        assert forall|pod_id: usize| #[trigger]
            either@.contains(pod_id) <==> self@.union(other@).contains(pod_id) by {
            if pod_id < MAX_PODS {
                let k = pod_id as int / 64;
                lemma_bit_ops(self.words@[k], other.words@[k], (pod_id as int % 64) as u64);
            }
        }
        assert(either@ =~= self@.union(other@));
        either
    }

    /// The pods that are in this bitmap but not in `other`.
    pub fn minus(&self, other: Self) -> (rest: Self)
        ensures
            rest@ == self@.difference(other@),
    {
        let mut words: [u64; WORDS] = [0, 0, 0, 0];
        let mut i: usize = 0;
        while i < WORDS
            invariant
                i <= WORDS,
                forall|k: int| 0 <= k < i ==> words@[k] == self.words@[k] & !other.words@[k],
            decreases WORDS - i,
        {
            words[i] = self.words[i] & !other.words[i];
            i = i + 1;
        }
        let rest = Self { words };
        assert forall|pod_id: usize| #[trigger]
            rest@.contains(pod_id) <==> self@.difference(other@).contains(pod_id) by {
            if pod_id < MAX_PODS {
                let k = pod_id as int / 64;
                lemma_bit_ops(self.words@[k], other.words@[k], (pod_id as int % 64) as u64);
            }
        }
        assert(rest@ =~= self@.difference(other@));
        rest
    }

    /// The bitmap of the first `count` pods, or of all of them where `count` is larger.
    pub fn full_for_count(count: usize) -> (bitmap: Self)
        ensures
            bitmap@ == Set::new(|pod_id: usize| pod_id < count && pod_id < MAX_PODS),
    {
        let bound: usize = if count < MAX_PODS { count } else { MAX_PODS };
        let mut bitmap = Self::empty();
        let mut pod_id: usize = 0;
        while pod_id < bound
            invariant
                pod_id <= bound <= MAX_PODS,
                bitmap@ =~= Set::new(|p: usize| p < pod_id),
            decreases bound - pod_id,
        {
            bitmap.set(pod_id);
            pod_id = pod_id + 1;
        }
        assert(bitmap@ =~= Set::new(|p: usize| p < count && p < MAX_PODS));
        bitmap
    }

    /// Shows each pod of the bitmap to `visitor`, in ascending order, and hands the visitor back.
    pub fn for_each_set_bit<V: PodVisitor>(&self, visitor: V) -> (done: V)
        requires
            visitor.ready(),
        ensures
            done.ready(),
            exists|trace: Seq<V>|
                {
                    &&& #[trigger] visits(trace, ascending(self@))
                    &&& trace.first() == visitor
                    &&& trace.last() == done
                },
    {
        let mut visitor = visitor;
        let ghost mut trace: Seq<V> = seq![visitor];
        let ghost first = visitor;
        let mut word_index: usize = 0;
        while word_index < WORDS
            invariant
                word_index <= WORDS,
                visitor.ready(),
                visits(trace, ascending_below(self@, (word_index * 64) as nat)),
                trace.first() == first,
                trace.last() == visitor,
            decreases WORDS - word_index,
        {
            let ghost word = self.words@[word_index as int];
            let mut remaining: u64 = self.words[word_index];
            let ghost mut shown: nat = 0;
            while remaining != 0
                invariant
                    word_index < WORDS,
                    word == self.words@[word_index as int],
                    shown <= 64,
                    forall|i: u64|
                        i < 64 ==> (#[trigger] bit(remaining, i) <==> bit(word, i) && i >= shown),
                    visitor.ready(),
                    visits(trace, ascending_below(self@, (word_index * 64 + shown) as nat)),
                    trace.first() == first,
                    trace.last() == visitor,
                decreases 64 - shown,
            {
                let low: u32 = remaining.trailing_zeros();
                proof {
                    lemma_lowest_bit(remaining, 0);
                    assert(bit(word, low as u64) && low >= shown);
                    assert forall|pod_id: usize|
                        word_index * 64 + shown <= pod_id < word_index * 64
                            + low implies !self@.contains(pod_id) by {
                        let i = (pod_id - word_index * 64) as u64;
                        lemma_lowest_bit(remaining, i);
                        self.lemma_view(word_index as int, i);
                    }
                    lemma_ascending_gap(
                        self@,
                        (word_index * 64 + shown) as nat,
                        (word_index * 64 + low) as nat,
                    );
                    self.lemma_view(word_index as int, low as u64);
                }
                let pod_id: usize = word_index * BITS_PER_WORD + low as usize;
                visitor.visit(pod_id);
                proof {
                    let seen = ascending_below(self@, (word_index * 64 + low) as nat);
                    assert(ascending_below(self@, (word_index * 64 + low + 1) as nat) == seen.push(
                        pod_id,
                    ));
                    let longer = trace.push(visitor);
                    assert forall|i: int| 0 <= i < seen.push(pod_id).len() implies (
                    #[trigger] longer[i]).visited(seen.push(pod_id)[i], &longer[i + 1]) by {
                        if i < seen.len() {
                            assert(trace[i].visited(seen[i], &trace[i + 1]));
                        }
                    }
                    trace = longer;
                    assert forall|i: u64| i < 64 implies (#[trigger] bit(
                        remaining & ((remaining - 1) as u64),
                        i,
                    ) <==> bit(word, i) && i >= low + 1) by {
                        lemma_lowest_bit(remaining, i);
                        assert(bit(remaining, i) <==> bit(word, i) && i >= shown);
                    }
                    shown = (low + 1) as nat;
                }
                remaining = remaining & (remaining - 1);
            }
            proof {
                assert forall|pod_id: usize|
                    word_index * 64 + shown <= pod_id < word_index * 64
                        + 64 implies !self@.contains(pod_id) by {
                    let i = (pod_id - word_index * 64) as u64;
                    lemma_bit_ops(0, 0, i);
                    assert(!bit(remaining, i));
                    self.lemma_view(word_index as int, i);
                }
                lemma_ascending_gap(
                    self@,
                    (word_index * 64 + shown) as nat,
                    (word_index * 64 + 64) as nat,
                );
            }
            word_index = word_index + 1;
        }
        assert(visits(trace, ascending(self@)));
        visitor
    }

    /// The members in ascending order.
    pub fn iter_set_bits(&self) -> (pods: Vec<usize>)
        ensures
            pods@ == ascending(self@),
    {
        let collector = PodCollector { pods: Vec::new() };
        let done = self.for_each_set_bit(collector);
        proof {
            let members = ascending(self@);
            let trace = choose|trace: Seq<PodCollector>|
                {
                    &&& #[trigger] visits(trace, members)
                    &&& trace.first() == collector
                    &&& trace.last() == done
                };
            lemma_collected(trace, members, members.len() as int);
            assert(members.take(members.len() as int) =~= members);
        }
        done.pods
    }

    /// How many members there are.
    pub fn count_ones(&self) -> (count: usize)
        ensures
            self@.finite(),
            count == self@.len(),
            count <= MAX_PODS,
    {
        let counter = PodCounter { count: 0 };
        let done = self.for_each_set_bit(counter);
        proof {
            let members = ascending(self@);
            let trace = choose|trace: Seq<PodCounter>|
                {
                    &&& #[trigger] visits(trace, members)
                    &&& trace.first() == counter
                    &&& trace.last() == done
                };
            self.lemma_members_fit();
            lemma_counted(trace, members, members.len() as int);
        }
        done.count
    }

    /// Every member is a pod id below [`MAX_PODS`], so a bitmap has at most that many members.
    pub proof fn lemma_members_fit(&self)
        ensures
            self@.finite(),
            self@.len() <= MAX_PODS,
            self@.len() == ascending(self@).len(),
            forall|pod_id: usize| #[trigger] self@.contains(pod_id) ==> pod_id < MAX_PODS,
    {
        lemma_ascending_below(self@, MAX_PODS as nat);
        assert(self@ =~= self@.intersect(pods_below(MAX_PODS as nat)));
    }

    /// Two bitmaps with the same members are the same value.
    pub proof fn lemma_same_members(a: Self, b: Self)
        requires
            a@ == b@,
        ensures
            a == b,
    {
        assert forall|k: int| 0 <= k < WORDS implies a.words@[k] == b.words@[k] by {
            if a.words@[k] != b.words@[k] {
                let differ = a.words@[k] ^ b.words@[k];
                lemma_xor_zero(a.words@[k], b.words@[k]);
                lemma_lowest_bit(differ, 0);
                let i = u64_trailing_zeros(differ) as u64;
                lemma_xor_bit(a.words@[k], b.words@[k], i);
                a.lemma_view(k, i);
                b.lemma_view(k, i);
            }
        }
        assert(a.words@ =~= b.words@);
        assert(a.words =~= b.words);
    }
}

proof fn lemma_xor_zero(a: u64, b: u64)
    by (bit_vector)
    ensures
        a ^ b == 0 <==> a == b,
{
}

proof fn lemma_xor_bit(a: u64, b: u64, i: u64)
    by (bit_vector)
    requires
        i < 64,
        (a ^ b) & (1u64 << i) != 0,
    ensures
        (a & (1u64 << i) != 0) != (b & (1u64 << i) != 0),
{
}

/// What the ascending members below a bound are: the members below it, each once, ascending.
proof fn lemma_ascending_below(pods: Set<usize>, bound: nat)
    requires
        bound <= MAX_PODS,
    ensures
        forall|pod_id: usize| #[trigger]
            ascending_below(pods, bound).contains(pod_id) <==> pods.contains(pod_id) && pod_id
                < bound,
        forall|i: int, j: int|
            0 <= i < j < ascending_below(pods, bound).len() ==> ascending_below(pods, bound)[i]
                < ascending_below(pods, bound)[j],
        ascending_below(pods, bound).len() <= bound,
        pods.intersect(pods_below(bound)).finite(),
        pods.intersect(pods_below(bound)).len() == ascending_below(pods, bound).len(),
    decreases bound,
{
    if bound == 0 {
        assert(pods.intersect(pods_below(0)) =~= Set::<usize>::empty());
    } else {
        let below = (bound - 1) as nat;
        let pod_id = below as usize;
        lemma_ascending_below(pods, below);
        let shorter = ascending_below(pods, below);
        if pods.contains(pod_id) {
            let longer = shorter.push(pod_id);
            assert forall|p: usize| #[trigger] longer.contains(p) <==> pods.contains(p) && p
                < bound by {
                if shorter.contains(p) {
                    let i = choose|i: int| 0 <= i < shorter.len() && shorter[i] == p;
                    assert(longer[i] == p);
                }
                assert(longer[shorter.len() as int] == pod_id);
            }
            assert forall|i: int| 0 <= i < shorter.len() implies shorter[i] < pod_id by {
                assert(shorter.contains(shorter[i]));
            }
            assert(pods.intersect(pods_below(bound)) =~= pods.intersect(pods_below(below)).insert(
                pod_id,
            ));
        } else {
            assert(pods.intersect(pods_below(bound)) =~= pods.intersect(pods_below(below)));
        }
    }
}

/// The ascending pods of a set are its members below [`MAX_PODS`], each once.
pub proof fn lemma_ascending(pods: Set<usize>)
    ensures
        forall|pod_id: usize| #[trigger]
            ascending(pods).contains(pod_id) <==> pods.contains(pod_id) && pod_id < MAX_PODS,
        forall|i: int, j: int|
            0 <= i < j < ascending(pods).len() ==> ascending(pods)[i] < ascending(pods)[j],
        ascending(pods).len() <= MAX_PODS,
{
    lemma_ascending_below(pods, MAX_PODS as nat);
}

/// After `n` visits a counter that started at zero holds `n`.
proof fn lemma_counted(trace: Seq<PodCounter>, pods: Seq<usize>, n: int)
    requires
        visits(trace, pods),
        trace[0].count == 0,
        0 <= n <= pods.len() <= MAX_PODS,
    ensures
        trace[n].count == n,
    decreases n,
{
    if n > 0 {
        lemma_counted(trace, pods, n - 1);
        assert(trace[n - 1].visited(pods[n - 1], &trace[n]));
    }
}

/// After `n` visits a collector that started empty holds the first `n` pods.
proof fn lemma_collected(trace: Seq<PodCollector>, pods: Seq<usize>, n: int)
    requires
        visits(trace, pods),
        trace[0].pods@ == Seq::<usize>::empty(),
        0 <= n <= pods.len(),
    ensures
        trace[n].pods@ == pods.take(n),
    decreases n,
{
    if n > 0 {
        lemma_collected(trace, pods, n - 1);
        assert(trace[n - 1].visited(pods[n - 1], &trace[n]));
        assert(pods.take(n) =~= pods.take(n - 1).push(pods[n - 1]));
    } else {
        assert(pods.take(0) =~= Seq::<usize>::empty());
    }
}

} // verus!
