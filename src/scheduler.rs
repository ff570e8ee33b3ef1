//! The scheduler: the phase, the judges, the item and match stores and the
//! match queue, with the operations that hand out matches and record verdicts.
use crate::queue::{
    has_entries, has_entry_at_most, is_min_entry, queue_change_priority, queue_entries, queue_new, queue_peek_min, queue_push,
    MatchQueue,
};
use crate::store::{
    item_entries, item_store_entries, item_store_get, item_store_insert, item_store_new,
    match_entries, match_store_entries, match_store_copy, match_store_get, match_store_insert, match_store_new,
    ItemStore, MatchStore,
};
use crate::random::{choose_two, fresh_id, shuffled};
use crate::seeder::{
    lemma_round_covers, lemma_round_members, plays_in, lemma_round_no_self_pairs, lemma_round_size, pairs_per_round, round_pairs,
    round_pairs_of,
};
use crate::types::{elo_side, fails_with, phase_rank, ErrorKind, RatingUpdate, Item, Judge, MatchPair, MatchWinner, SchedulerError, States, Winner};
use vstd::prelude::*;

verus! {

/// The whole scheduling state: one owner for the phase, the judges, the
/// stores and the queue.
pub struct SchedulerState {
    current_state: States,
    judges: Vec<Judge>,
    items: ItemStore,
    matches: MatchStore,
    mq: MatchQueue,
}

/// `m` with every item of `s` inserted under its id, in order, later ones
/// replacing earlier ones.
pub open spec fn with_items(m: Map<Seq<char>, Item>, s: Seq<Item>) -> Map<Seq<char>, Item>
    decreases s.len(),
{
    if s.len() == 0 {
        m
    } else {
        with_items(m, s.drop_last()).insert(s.last().id@, s.last())
    }
}

/// A phase change that an operation may make: none, the start of seeding, or
/// the move from seeding to the continuous phase.
pub open spec fn phase_step(a: States, b: States) -> bool {
    ||| a == b
    ||| a == States::NoState && b == States::Init
    ||| a == States::Init && b == States::Continuous
}

/// Between two points of a run of phase steps the phase does not move back,
/// and it is `End` at the later point only if it was at the earlier.
proof fn lemma_phase_run_between(run: Seq<States>, i: int, j: int)
    requires
        forall|x: int| 0 <= x < run.len() - 1 ==> phase_step(#[trigger] run[x], run[x + 1]),
        0 <= i <= j < run.len(),
    ensures
        phase_rank(run[i]) <= phase_rank(run[j]),
        run[j] == States::End ==> run[i] == States::End,
    decreases j - i,
{
    if i < j {
        lemma_phase_run_between(run, i, j - 1);
        assert(phase_step(run[j - 1], run[j]));
    }
}

/// Along a run of operations, each of which makes a phase step, the phase
/// never moves back, and a run that does not start in `End` never reaches it.
pub proof fn lemma_phase_run(run: Seq<States>)
    requires
        forall|i: int| 0 <= i < run.len() - 1 ==> phase_step(#[trigger] run[i], run[i + 1]),
    ensures
        forall|i: int, j: int|
            0 <= i <= j < run.len() ==> phase_rank(run[i]) <= phase_rank(run[j]),
        run.len() > 0 && run[0] != States::End ==> forall|i: int|
            0 <= i < run.len() ==> #[trigger] run[i] != States::End,
{
    assert forall|i: int, j: int| 0 <= i <= j < run.len() implies phase_rank(run[i])
        <= phase_rank(run[j]) by {
        lemma_phase_run_between(run, i, j);
    }
    if run.len() > 0 && run[0] != States::End {
        assert forall|i: int| 0 <= i < run.len() implies #[trigger] run[i] != States::End by {
            lemma_phase_run_between(run, 0, i);
        }
    }
}

/// The phase after the transition that precedes every match request: the
/// seed phase ends once the queue is not empty and every queued match has been
/// served at least once.
pub open spec fn next_phase(s: States, q: Map<Seq<char>, u64>) -> States {
    if s == States::Init && has_entries(q) && !has_entry_at_most(q, 0) {
        States::Continuous
    } else {
        s
    }
}

/// `m` after being handed to `judge` once more.
pub open spec fn served(m: MatchPair, judge: Judge) -> MatchPair {
    MatchPair {
        match_pair_id: m.match_pair_id,
        i1: m.i1,
        i2: m.i2,
        visit_count: (m.visit_count + 1) as u64,
        winner: m.winner,
        judge_id: Some(judge.id),
    }
}

/// `m` is a new pair over two distinct items of `items`, under an id that
/// `matches` does not hold, with no verdict.
pub open spec fn is_fresh_pair(
    m: MatchPair,
    matches: Map<Seq<char>, MatchPair>,
    items: Map<Seq<char>, Item>,
) -> bool {
    &&& !matches.contains_key(m.match_pair_id@)
    &&& m.i1@ != m.i2@
    &&& items.contains_key(m.i1@)
    &&& items.contains_key(m.i2@)
    &&& m.winner is None
}

/// `m` with its winner recorded.
pub open spec fn judged(m: MatchPair, w: MatchWinner) -> MatchPair {
    MatchPair {
        match_pair_id: m.match_pair_id,
        i1: m.i1,
        i2: m.i2,
        visit_count: m.visit_count,
        winner: Some(w),
        judge_id: m.judge_id,
    }
}

/// `item` with the given rating.
pub open spec fn rescored(item: Item, score_bits: u64) -> Item {
    Item {
        id: item.id,
        name: item.name,
        location: item.location,
        description: item.description,
        score_bits,
    }
}

/// The views of a list of ids.
pub open spec fn id_views(ids: Seq<String>) -> Seq<Seq<char>> {
    ids.map_values(|s: String| s@)
}

/// No two ids of the list are the same text.
pub open spec fn ids_distinct(ids: Seq<String>) -> bool {
    forall|a: int, b: int| 0 <= a < b < ids.len() ==> (#[trigger] ids[a])@ != (#[trigger] ids[b])@
}

/// Both sides of the pair are ids of items.
pub open spec fn pair_of_items(pair: (String, String), items: Map<Seq<char>, Item>) -> bool {
    items.contains_key(pair.0@) && items.contains_key(pair.1@)
}

/// Every pair of the list is a pair of items.
pub open spec fn pairs_of_items(pairs: Seq<(String, String)>, items: Map<Seq<char>, Item>) -> bool {
    forall|t: int| 0 <= t < pairs.len() ==> pair_of_items(#[trigger] pairs[t], items)
}

/// The match that seeding creates for a pair under a match id.
pub open spec fn seeded_match(id: String, pair: (String, String)) -> MatchPair {
    MatchPair {
        match_pair_id: id,
        i1: pair.0,
        i2: pair.1,
        visit_count: 0,
        winner: None,
        judge_id: None,
    }
}

/// One side of the pair is the item id `key`.
pub open spec fn has_side(pair: (String, String), key: Seq<char>) -> bool {
    pair.0@ == key || pair.1@ == key
}

/// Every item of `items` plays in some pair of round `r`, the positions
/// `r * h .. r * h + h` of `pairs`.
pub open spec fn round_covers(
    pairs: Seq<(String, String)>,
    r: int,
    h: int,
    items: Map<Seq<char>, Item>,
) -> bool {
    forall|key: Seq<char>| #[trigger]
        items.contains_key(key) ==> exists|i: int|
            r * h <= i < r * h + h && #[trigger] has_side(pairs[i], key)
}

/// `pairs` is `n` rounds of `h` pairs each, and every item plays in every round.
pub open spec fn rounds_cover(
    pairs: Seq<(String, String)>,
    n: int,
    h: int,
    items: Map<Seq<char>, Item>,
) -> bool {
    &&& pairs.len() == n * h
    &&& forall|r: int| 0 <= r < n ==> #[trigger] round_covers(pairs, r, h, items)
}

/// A round stays covered when pairs are added after it.
proof fn lemma_round_covers_extend(
    p: Seq<(String, String)>,
    q: Seq<(String, String)>,
    r: int,
    h: int,
    items: Map<Seq<char>, Item>,
)
    requires
        round_covers(p, r, h, items),
        0 <= r * h,
        r * h + h <= p.len() <= q.len(),
        forall|i: int| 0 <= i < p.len() ==> #[trigger] q[i] == p[i],
    ensures
        round_covers(q, r, h, items),
{
    assert forall|key: Seq<char>| #[trigger] items.contains_key(key) implies exists|i: int|
        r * h <= i < r * h + h && #[trigger] has_side(q[i], key) by {
        let i = choose|i: int| r * h <= i < r * h + h && #[trigger] has_side(p[i], key);
        assert(q[i] == p[i]);
    }
}

/// `m` as the seeder creates it: never served, never judged.
pub open spec fn unserved(m: MatchPair) -> bool {
    &&& m.visit_count == 0
    &&& m.winner is None
    &&& m.judge_id is None
}

/// The positions `0, 1, ..., k - 1`.
fn positions(k: usize) -> (r: Vec<usize>)
    ensures
        r@ == Seq::new(k as nat, |i: int| i as usize),
{
    let mut v: Vec<usize> = Vec::new();
    let mut i: usize = 0;
    while i < k
        invariant
            i <= k,
            v@ == Seq::new(i as nat, |j: int| j as usize),
        decreases k - i,
    {
        v.push(i);
        i = i + 1;
        assert(v@ =~= Seq::new(i as nat, |j: int| j as usize));
    }
    v
}

/// A sequence with the same elements as the positions `0..k`, each as often,
/// holds each position exactly once.
proof fn lemma_permutation_of_positions(perm: Seq<usize>, k: nat)
    requires
        k <= usize::MAX,
        perm.to_multiset() == Seq::new(k, |i: int| i as usize).to_multiset(),
    ensures
        perm.len() == k,
        perm.no_duplicates(),
        forall|j: int| 0 <= j < perm.len() ==> #[trigger] perm[j] < k,
        forall|a: int| 0 <= a < k ==> #[trigger] perm.contains(a as usize),
{
    broadcast use vstd::seq_lib::group_to_multiset_ensures;

    let s = Seq::new(k, |i: int| i as usize);
    assert forall|i: int, j: int| 0 <= i < s.len() && 0 <= j < s.len() && i != j implies s[i]
        != s[j] by {
        assert(s[i] == i);
        assert(s[j] == j);
    }
    vstd::seq_lib::to_multiset_len(s);
    vstd::seq_lib::to_multiset_len(perm);
    s.lemma_multiset_has_no_duplicates();
    perm.lemma_multiset_has_no_duplicates_conv();
    assert forall|j: int| 0 <= j < perm.len() implies #[trigger] perm[j] < k by {
        assert(perm.contains(perm[j]));
        assert(perm.to_multiset().count(perm[j]) > 0);
        assert(s.contains(perm[j]));
    }
    assert forall|a: int| 0 <= a < k implies #[trigger] perm.contains(a as usize) by {
        assert(s[a] == a as usize);
        assert(s.contains(a as usize));
        assert(s.to_multiset().count(a as usize) > 0);
    }
}

impl SchedulerState {
    /// The current phase.
    pub closed spec fn phase(&self) -> States {
        self.current_state
    }

    /// The judges, in the order they were added.
    pub closed spec fn judge_seq(&self) -> Seq<Judge> {
        self.judges@
    }

    /// The items by id.
    pub closed spec fn item_map(&self) -> Map<Seq<char>, Item> {
        item_entries(self.items)
    }

    /// The match pairs by id.
    pub closed spec fn match_map(&self) -> Map<Seq<char>, MatchPair> {
        match_entries(self.matches)
    }

    /// The queue: each queued match id with its priority.
    pub closed spec fn queue_map(&self) -> Map<Seq<char>, u64> {
        queue_entries(self.mq)
    }

    /// Every match in the store has exactly one queue entry, and its priority
    /// is the match's visit count; the queue holds no other id.
    pub open spec fn queue_mirrors_store(&self) -> bool {
        &&& forall|k: Seq<char>| #[trigger]
            self.queue_map().contains_key(k) ==> self.match_map().contains_key(k)
        &&& forall|k: Seq<char>| #[trigger]
            self.match_map().contains_key(k) ==> self.queue_map().contains_key(k)
                && self.queue_map()[k] == self.match_map()[k].visit_count
    }

    /// Every match refers to two items of the store.
    pub open spec fn matches_refer_to_items(&self) -> bool {
        forall|k: Seq<char>| #[trigger]
            self.match_map().contains_key(k) ==> self.item_map().contains_key(
                self.match_map()[k].i1@,
            ) && self.item_map().contains_key(self.match_map()[k].i2@)
    }

    /// No match pairs an item with itself.
    pub open spec fn no_self_pairs(&self) -> bool {
        forall|k: Seq<char>| #[trigger]
            self.match_map().contains_key(k) ==> self.match_map()[k].i1@ != self.match_map()[k].i2@
    }

    /// The invariant of the scheduling state.
    pub open spec fn wf(&self) -> bool {
        &&& self.item_map().dom().finite()
        &&& self.match_map().dom().finite()
        &&& forall|k: Seq<char>| #[trigger]
            self.item_map().contains_key(k) ==> self.item_map()[k].id@ == k
        &&& forall|k: Seq<char>| #[trigger]
            self.match_map().contains_key(k) ==> self.match_map()[k].match_pair_id@ == k
        &&& self.queue_mirrors_store()
        &&& self.matches_refer_to_items()
        &&& self.phase() == States::NoState ==> self.match_map().dom().len() == 0
    }

    /// The invariant depends on the phase and the stores only.
    proof fn lemma_wf_frame(a: &SchedulerState, b: &SchedulerState)
        requires
            a.wf(),
            b.item_map() == a.item_map(),
            b.match_map() == a.match_map(),
            b.queue_map() == a.queue_map(),
            b.phase() == a.phase(),
        ensures
            b.wf(),
    {
    }

    /// The mirroring of store and queue depends on those two only.
    proof fn lemma_mirror_frame(a: &SchedulerState, b: &SchedulerState)
        requires
            a.queue_mirrors_store(),
            b.match_map() == a.match_map(),
            b.queue_map() == a.queue_map(),
        ensures
            b.queue_mirrors_store(),
    {
    }

    /// Storing a match and queueing it at its visit count keeps the two mirrored.
    proof fn lemma_record_mirror(a: &SchedulerState, b: &SchedulerState, m: MatchPair)
        requires
            a.queue_mirrors_store(),
            SchedulerState::records(a, b, m),
        ensures
            b.queue_mirrors_store(),
    {
        assert forall|k: Seq<char>| #[trigger] b.queue_map().contains_key(k) implies b.match_map().contains_key(k) by {
            if k != m.match_pair_id@ {
                assert(a.queue_map().contains_key(k));
            }
        }
    }

    /// An empty scheduler in the `NoState` phase.
    pub fn new() -> (r: SchedulerState)
        ensures
            r.wf(),
            r.phase() == States::NoState,
            r.judge_seq().len() == 0,
            r.item_map().dom().len() == 0,
            r.match_map().dom().len() == 0,
            r.queue_map().dom().len() == 0,
    {
        SchedulerState {
            current_state: States::NoState,
            judges: Vec::new(),
            items: item_store_new(),
            matches: match_store_new(),
            mq: queue_new(),
        }
    }

    /// The current phase.
    pub fn get_state(&self) -> (r: States)
        ensures
            r == self.phase(),
    {
        self.current_state
    }

    /// Copies of the judges, in the order they were added.
    pub fn get_judges(&self) -> (r: Vec<Judge>)
        ensures
            r@ == self.judge_seq(),
    {
        let mut v: Vec<Judge> = Vec::new();
        let mut i: usize = 0;
        while i < self.judges.len()
            invariant
                i <= self.judges@.len(),
                v@ == self.judges@.subrange(0, i as int),
            decreases self.judges@.len() - i,
        {
            v.push(self.judges[i].copied());
            i = i + 1;
            assert(v@ =~= self.judges@.subrange(0, i as int));
        }
        assert(v@ =~= self.judges@);
        v
    }

    /// Copies of all items, each once, in an order that the store chooses.
    pub fn get_items(&self) -> (r: Vec<Item>)
        requires
            self.wf(),
        ensures
            r@.len() == self.item_map().dom().len(),
            forall|i: int|
                0 <= i < r@.len() ==> self.item_map().contains_key(#[trigger] r@[i].id@)
                    && self.item_map()[r@[i].id@] == r@[i],
            forall|i: int, j: int| 0 <= i < j < r@.len() ==> r@[i].id@ != r@[j].id@,
            forall|k: Seq<char>| #[trigger]
                self.item_map().contains_key(k) ==> exists|i: int|
                    0 <= i < r@.len() && r@[i].id@ == k,
    {
        let entries = item_store_entries(&self.items);
        let mut v: Vec<Item> = Vec::new();
        let mut i: usize = 0;
        while i < entries.len()
            invariant
                i <= entries@.len(),
                v@.len() == i,
                forall|j: int| 0 <= j < i ==> #[trigger] v@[j] == entries@[j].1,
            decreases entries@.len() - i,
        {
            v.push(entries[i].1.copied());
            i = i + 1;
        }
        assert forall|j: int| 0 <= j < v@.len() implies v@[j].id@ == entries@[j].0@ by {
            assert(self.item_map().contains_key(entries@[j].0@));
        }
        assert forall|k: Seq<char>| #[trigger]
            self.item_map().contains_key(k) implies exists|i: int|
                0 <= i < v@.len() && v@[i].id@ == k by {
            let i = choose|i: int| 0 <= i < entries@.len() && entries@[i].0@ == k;
            assert(v@[i].id@ == entries@[i].0@);
        }
        v
    }

    /// Copies of all match pairs, each once, in an order that the store chooses.
    pub fn get_match_pairs(&self) -> (r: Vec<MatchPair>)
        requires
            self.wf(),
        ensures
            r@.len() == self.match_map().dom().len(),
            forall|i: int|
                0 <= i < r@.len() ==> self.match_map().contains_key(
                    #[trigger] r@[i].match_pair_id@,
                ) && self.match_map()[r@[i].match_pair_id@] == r@[i],
            forall|i: int, j: int|
                0 <= i < j < r@.len() ==> r@[i].match_pair_id@ != r@[j].match_pair_id@,
            forall|k: Seq<char>| #[trigger]
                self.match_map().contains_key(k) ==> exists|i: int|
                    0 <= i < r@.len() && r@[i].match_pair_id@ == k,
    {
        let entries = match_store_entries(&self.matches);
        let mut v: Vec<MatchPair> = Vec::new();
        let mut i: usize = 0;
        while i < entries.len()
            invariant
                i <= entries@.len(),
                v@.len() == i,
                forall|j: int| 0 <= j < i ==> #[trigger] v@[j] == entries@[j].1,
            decreases entries@.len() - i,
        {
            v.push(entries[i].1.copied());
            i = i + 1;
        }
        assert forall|j: int| 0 <= j < v@.len() implies v@[j].match_pair_id@ == entries@[j].0@ by {
            assert(self.match_map().contains_key(entries@[j].0@));
        }
        assert forall|k: Seq<char>| #[trigger]
            self.match_map().contains_key(k) implies exists|i: int|
                0 <= i < v@.len() && v@[i].match_pair_id@ == k by {
            let i = choose|i: int| 0 <= i < entries@.len() && entries@[i].0@ == k;
            assert(v@[i].match_pair_id@ == entries@[i].0@);
        }
        v
    }

    /// Inserts an item under its id, replacing an item of the same id.
    pub fn add_item(&mut self, item: Item)
        requires
            old(self).wf(),
        ensures
            final(self).wf(),
            final(self).item_map() == old(self).item_map().insert(item.id@, item),
            final(self).match_map() == old(self).match_map(),
            final(self).queue_map() == old(self).queue_map(),
            final(self).judge_seq() == old(self).judge_seq(),
            final(self).phase() == old(self).phase(),
    {
        let id = item.id.clone();
        item_store_insert(&mut self.items, id, item);
        proof {
            SchedulerState::lemma_mirror_frame(old(self), self);
        }
    }

    /// Inserts each item under its id, in order.
    pub fn add_items(&mut self, new_items: Vec<Item>)
        requires
            old(self).wf(),
        ensures
            final(self).wf(),
            final(self).item_map() == with_items(old(self).item_map(), new_items@),
            final(self).match_map() == old(self).match_map(),
            final(self).queue_map() == old(self).queue_map(),
            final(self).judge_seq() == old(self).judge_seq(),
            final(self).phase() == old(self).phase(),
    {
        let mut i: usize = 0;
        while i < new_items.len()
            invariant
                self.wf(),
                i <= new_items@.len(),
                self.item_map() == with_items(old(self).item_map(), new_items@.subrange(0, i as int)),
                self.match_map() == old(self).match_map(),
                self.queue_map() == old(self).queue_map(),
                self.judge_seq() == old(self).judge_seq(),
                self.phase() == old(self).phase(),
            decreases new_items@.len() - i,
        {
            let item = new_items[i].copied();
            self.add_item(item);
            assert(new_items@.subrange(0, i + 1).drop_last() =~= new_items@.subrange(0, i as int));
            i = i + 1;
        }
        assert(new_items@.subrange(0, i as int) =~= new_items@);
    }

    /// Appends a judge.
    pub fn add_judge(&mut self, new_judge: Judge)
        requires
            old(self).wf(),
        ensures
            final(self).wf(),
            final(self).judge_seq() == old(self).judge_seq().push(new_judge),
            final(self).item_map() == old(self).item_map(),
            final(self).match_map() == old(self).match_map(),
            final(self).queue_map() == old(self).queue_map(),
            final(self).phase() == old(self).phase(),
    {
        self.judges.push(new_judge);
        proof {
            SchedulerState::lemma_wf_frame(old(self), self);
        }
    }

    /// Moves all the given judges to the end of the list, leaving the argument empty.
    pub fn add_judges(&mut self, new_judges: &mut Vec<Judge>)
        requires
            old(self).wf(),
        ensures
            final(self).wf(),
            final(self).judge_seq() == old(self).judge_seq() + old(new_judges)@,
            final(new_judges)@.len() == 0,
            final(self).item_map() == old(self).item_map(),
            final(self).match_map() == old(self).match_map(),
            final(self).queue_map() == old(self).queue_map(),
            final(self).phase() == old(self).phase(),
    {
        self.judges.append(new_judges);
        proof {
            SchedulerState::lemma_wf_frame(old(self), self);
        }
    }

    /// The transition that precedes every match request.
    pub fn state_machine_internal_transition(&mut self)
        requires
            old(self).wf(),
        ensures
            final(self).wf(),
            final(self).phase() == next_phase(old(self).phase(), old(self).queue_map()),
            final(self).item_map() == old(self).item_map(),
            final(self).match_map() == old(self).match_map(),
            final(self).queue_map() == old(self).queue_map(),
            final(self).judge_seq() == old(self).judge_seq(),
    {
        if self.current_state == States::Init {
            match queue_peek_min(&self.mq) {
                Some((k, p)) => {
                    if p >= 1 {
                        self.current_state = States::Continuous;
                    } else {
                        assert(self.queue_map().contains_key(k@) && self.queue_map()[k@] <= 0);
                    }
                },
                None => {},
            }
        }
        proof {
            SchedulerState::lemma_mirror_frame(old(self), self);
        }
    }

    /// The queued match with the lowest visit count, if that count is at most
    /// `max_priority`.
    fn get_from_queue(&self, max_priority: u64) -> (r: Result<Option<MatchPair>, SchedulerError>)
        requires
            self.wf(),
        ensures
            !has_entries(self.queue_map()) <==> r is Err,
            r matches Err(e) ==> e.kind == ErrorKind::EmptyQueue,
            r matches Ok(None) <==> has_entries(self.queue_map()) && !has_entry_at_most(
                self.queue_map(),
                max_priority,
            ),
            r matches Ok(Some(m)) ==> self.match_map().contains_key(m.match_pair_id@)
                && self.match_map()[m.match_pair_id@] == m && is_min_entry(
                self.queue_map(),
                m.match_pair_id@,
            ) && m.visit_count <= max_priority,
    {
        match queue_peek_min(&self.mq) {
            None => Err(SchedulerError::with_kind(ErrorKind::EmptyQueue, "could not peek queue")),
            Some((k, p)) => {
                if p > max_priority {
                    Ok(None)
                } else {
                    match match_store_get(&self.matches, &k) {
                        Some(m) => Ok(Some(m)),
                        None => Err(SchedulerError::with_kind(ErrorKind::NotFound, "match key not found")),
                    }
                }
            },
        }
    }

    /// The match store of `s` holds exactly one never served match per
    /// position of `pairs`, under the distinct id at the same position of `ids`.
    pub open spec fn seeded_by(s: &SchedulerState, pairs: Seq<(String, String)>, ids: Seq<String>) -> bool {
        &&& pairs.len() == ids.len()
        &&& ids_distinct(ids)
        &&& s.match_map().dom() == id_views(ids).to_set()
        &&& forall|t: int|
            0 <= t < ids.len() ==> #[trigger] s.match_map()[ids[t]@] == seeded_match(ids[t], pairs[t])
    }

    /// `b` holds the same match store and queue as `a`.
    pub open spec fn same_matches(a: &SchedulerState, b: &SchedulerState) -> bool {
        &&& b.match_map() == a.match_map()
        &&& b.queue_map() == a.queue_map()
    }

    /// `m` is in the store of `a`, and its id has the lowest priority of the queue.
    pub open spec fn least_served(a: &SchedulerState, m: MatchPair) -> bool {
        &&& a.match_map().contains_key(m.match_pair_id@)
        &&& a.match_map()[m.match_pair_id@] == m
        &&& is_min_entry(a.queue_map(), m.match_pair_id@)
    }

    /// `b` is `a` with the fresh pair `m` added to the store and to the queue,
    /// at its visit count.
    pub open spec fn adds_fresh(a: &SchedulerState, b: &SchedulerState, m: MatchPair) -> bool {
        &&& is_fresh_pair(m, a.match_map(), a.item_map())
        &&& b.match_map() == a.match_map().insert(m.match_pair_id@, m)
        &&& b.queue_map() == a.queue_map().insert(m.match_pair_id@, m.visit_count)
    }

    /// `b` is `a` with `m` stored under its id and queued at its visit count.
    pub open spec fn records(a: &SchedulerState, b: &SchedulerState, m: MatchPair) -> bool {
        &&& b.match_map() == a.match_map().insert(m.match_pair_id@, m)
        &&& b.queue_map() == a.queue_map().insert(m.match_pair_id@, m.visit_count)
    }

    /// `m` is the least served match of `a`, served at most once before, now
    /// handed to `judge`.
    pub open spec fn serves_queued(a: &SchedulerState, m: MatchPair, judge: Judge) -> bool {
        let before = a.match_map()[m.match_pair_id@];
        &&& SchedulerState::least_served(a, before)
        &&& before.visit_count <= 1
        &&& m == served(before, judge)
    }

    /// `m` is a new pair, drawn because every queued match of `a` was served
    /// more than once, now handed out for the first time.
    pub open spec fn serves_fresh(a: &SchedulerState, b: &SchedulerState, m: MatchPair) -> bool {
        &&& b.phase() == States::Continuous
        &&& !has_entry_at_most(a.queue_map(), 1)
        &&& is_fresh_pair(m, a.match_map(), a.item_map())
        &&& m.visit_count == 1
    }

    /// The continuous phase: the least served queued match if it was served at
    /// most once, else a new pair of two distinct items drawn at random, put in
    /// the store and the queue with a visit count of zero.
    pub fn get_continuous_stage(&mut self) -> (r: Result<MatchPair, SchedulerError>)
        requires
            old(self).wf(),
            old(self).phase() == States::Continuous,
        ensures
            final(self).wf(),
            final(self).phase() == old(self).phase(),
            final(self).item_map() == old(self).item_map(),
            final(self).judge_seq() == old(self).judge_seq(),
            has_entry_at_most(old(self).queue_map(), 1) ==> r is Ok,
            !has_entry_at_most(old(self).queue_map(), 1) && old(self).item_map().dom().len() < 2
                ==> fails_with(r, ErrorKind::NotEnoughItems),
            r matches Err(e) ==> e.kind == ErrorKind::NotEnoughItems || e.kind
                == ErrorKind::IdTaken,
            fails_with(r, ErrorKind::NotEnoughItems) ==> old(self).item_map().dom().len() < 2,
            r is Err ==> SchedulerState::same_matches(old(self), final(self)),
            r matches Ok(m) ==> (SchedulerState::same_matches(old(self), final(self))
                && SchedulerState::least_served(old(self), m) && m.visit_count <= 1) || (
            !has_entry_at_most(old(self).queue_map(), 1) && SchedulerState::adds_fresh(
                old(self),
                final(self),
                m,
            ) && m.visit_count == 0 && m.judge_id is None),
    {
        if let Ok(Some(m)) = self.get_from_queue(1) {
            return Ok(m);
        }
        let entries = item_store_entries(&self.items);
        if entries.len() < 2 {
            return Err(
                SchedulerError::with_kind(
                    ErrorKind::NotEnoughItems,
                    "at least two items are needed for a new pair",
                ),
            );
        }
        let mut ids: Vec<String> = Vec::new();
        let mut i: usize = 0;
        while i < entries.len()
            invariant
                i <= entries@.len(),
                ids@.len() == i,
                forall|j: int| 0 <= j < i ==> #[trigger] ids@[j] == entries@[j].0,
            decreases entries@.len() - i,
        {
            ids.push(entries[i].0.clone());
            i = i + 1;
        }
        let picked = choose_two(&ids);
        proof {
            let (a, b) = choose|a: int, b: int|
                0 <= a < ids@.len() && 0 <= b < ids@.len() && a != b && picked@[0] == ids@[a]
                    && picked@[1] == ids@[b];
            if a < b {
                assert(entries@[a].0@ != entries@[b].0@);
            } else {
                assert(entries@[b].0@ != entries@[a].0@);
            }
            assert(self.item_map().contains_key(entries@[a].0@));
            assert(self.item_map().contains_key(entries@[b].0@));
        }
        self.add_drawn_pair(picked[0].clone(), picked[1].clone(), fresh_id())
    }

    /// Stores and queues a new, never served pair of the two given items under
    /// the given match id; fails, changing nothing, exactly when the id is
    /// already taken.
    pub fn add_drawn_pair(&mut self, i1: String, i2: String, id: String) -> (r: Result<
        MatchPair,
        SchedulerError,
    >)
        requires
            old(self).wf(),
            old(self).phase() != States::NoState,
            old(self).item_map().contains_key(i1@),
            old(self).item_map().contains_key(i2@),
            i1@ != i2@,
        ensures
            final(self).wf(),
            final(self).phase() == old(self).phase(),
            final(self).item_map() == old(self).item_map(),
            final(self).judge_seq() == old(self).judge_seq(),
            r is Err <==> old(self).match_map().contains_key(id@),
            r is Err ==> fails_with(r, ErrorKind::IdTaken) && SchedulerState::same_matches(
                old(self),
                final(self),
            ),
            r matches Ok(m) ==> m == seeded_match(id, (i1, i2)) && SchedulerState::records(
                old(self),
                final(self),
                m,
            ),
    {
        if match_store_get(&self.matches, &id).is_some() {
            return Err(
                SchedulerError::with_kind(ErrorKind::IdTaken, "the drawn match id is already taken"),
            );
        }
        let m = MatchPair {
            match_pair_id: id.clone(),
            i1,
            i2,
            visit_count: 0,
            winner: None,
            judge_id: None,
        };
        let ghost before = *self;
        queue_push(&mut self.mq, id.clone(), 0);
        match_store_insert(&mut self.matches, id, m.copied());
        proof {
            SchedulerState::lemma_record_mirror(&before, self, m);
        }
        Ok(m)
    }

    /// Picks the next match according to the phase, which the transition has
    /// already brought up to date.
    fn find_next_match(&mut self) -> (r: Result<MatchPair, SchedulerError>)
        requires
            old(self).wf(),
            old(self).phase() == next_phase(old(self).phase(), old(self).queue_map()),
        ensures
            final(self).wf(),
            final(self).phase() == old(self).phase(),
            final(self).item_map() == old(self).item_map(),
            final(self).judge_seq() == old(self).judge_seq(),
            old(self).phase() == States::NoState || old(self).phase() == States::End ==> fails_with(
                r,
                ErrorKind::InvalidState,
            ),
            old(self).phase() == States::Init ==> (r is Ok <==> has_entries(old(self).queue_map())),
            old(self).phase() == States::Init && r is Err ==> fails_with(r, ErrorKind::EmptyQueue),
            old(self).phase() == States::Continuous && has_entry_at_most(old(self).queue_map(), 1)
                ==> r is Ok,
            old(self).phase() == States::Continuous && !has_entry_at_most(old(self).queue_map(), 1)
                && old(self).item_map().dom().len() < 2 ==> fails_with(r, ErrorKind::NotEnoughItems),
            old(self).phase() == States::Continuous && r is Err ==> fails_with(
                r,
                ErrorKind::NotEnoughItems,
            ) || fails_with(r, ErrorKind::IdTaken),
            fails_with(r, ErrorKind::NotEnoughItems) ==> old(self).item_map().dom().len() < 2,
            r is Err ==> SchedulerState::same_matches(old(self), final(self)),
            r matches Ok(m) ==> (SchedulerState::same_matches(old(self), final(self))
                && SchedulerState::least_served(old(self), m) && m.visit_count <= 1) || (old(
                self,
            ).phase() == States::Continuous && !has_entry_at_most(old(self).queue_map(), 1)
                && SchedulerState::adds_fresh(old(self), final(self), m) && m.visit_count == 0
                && m.judge_id is None),
    {
        match self.current_state {
            States::NoState => Err(
                SchedulerError::with_kind(
                    ErrorKind::InvalidState,
                    "cannot get next match in None state",
                ),
            ),
            States::Init => match self.get_from_queue(0) {
                Ok(Some(m)) => Ok(m),
                Ok(None) => Err(
                    SchedulerError::with_kind(ErrorKind::EmptyQueue, "could not peek queue"),
                ),
                Err(e) => Err(e),
            },
            States::Continuous => self.get_continuous_stage(),
            States::End => Err(
                SchedulerError::with_kind(
                    ErrorKind::InvalidState,
                    "cannot get next match in End state",
                ),
            ),
        }
    }

    /// Hands the next match to `judge`. The phase transition runs first; then
    /// the seed phase takes the least served queued match, and the continuous
    /// phase takes a queued match served at most once or else pairs two
    /// distinct items at random. The match's visit count goes up by one, in the
    /// store and in the queue, and `judge` becomes its last judge.
    pub fn give_judge_next_match(&mut self, judge: &Judge) -> (r: Result<MatchPair, SchedulerError>)
        requires
            old(self).wf(),
        ensures
            final(self).wf(),
            final(self).phase() == next_phase(old(self).phase(), old(self).queue_map()),
            phase_step(old(self).phase(), final(self).phase()),
            final(self).item_map() == old(self).item_map(),
            final(self).judge_seq() == old(self).judge_seq(),
            final(self).phase() == States::NoState || final(self).phase() == States::End
                ==> fails_with(r, ErrorKind::InvalidState),
            final(self).phase() == States::Init ==> (r is Ok <==> has_entries(
                old(self).queue_map(),
            )),
            final(self).phase() == States::Init && r is Err ==> fails_with(
                r,
                ErrorKind::EmptyQueue,
            ),
            final(self).phase() == States::Continuous && has_entry_at_most(
                old(self).queue_map(),
                1,
            ) ==> r is Ok,
            final(self).phase() == States::Continuous && !has_entry_at_most(
                old(self).queue_map(),
                1,
            ) && old(self).item_map().dom().len() < 2 ==> fails_with(
                r,
                ErrorKind::NotEnoughItems,
            ),
            final(self).phase() == States::Continuous && r is Err ==> fails_with(
                r,
                ErrorKind::NotEnoughItems,
            ) || fails_with(r, ErrorKind::IdTaken),
            fails_with(r, ErrorKind::NotEnoughItems) ==> old(self).item_map().dom().len() < 2,
            r is Err ==> SchedulerState::same_matches(old(self), final(self)),
            old(self).no_self_pairs() ==> final(self).no_self_pairs(),
            r matches Ok(m) ==> m.judge_id == Some(judge.id),
            r matches Ok(m) ==> SchedulerState::records(old(self), final(self), m),
            r matches Ok(m) ==> SchedulerState::serves_queued(old(self), m, *judge)
                || SchedulerState::serves_fresh(old(self), final(self), m),
            final(self).phase() == States::Init ==> (r matches Ok(m) ==> m.visit_count == 1),
            r matches Ok(m) ==> if old(self).match_map().contains_key(m.match_pair_id@) {
                m.visit_count == old(self).match_map()[m.match_pair_id@].visit_count + 1
            } else {
                m.visit_count == 1
            },
            has_entry_at_most(old(self).queue_map(), 0) ==> (r matches Ok(m) ==> m.visit_count == 1),
            has_entries(old(self).queue_map()) && !has_entry_at_most(old(self).queue_map(), 0) ==> (
            r matches Ok(m) ==> if old(self).match_map().contains_key(m.match_pair_id@) {
                old(self).match_map()[m.match_pair_id@].visit_count == 1 && m.visit_count == 2
            } else {
                m.visit_count == 1
            }),
    {
        self.state_machine_internal_transition();
        let ghost mid = *self;
        match self.find_next_match() {
            Err(e) => Err(e),
            Ok(m) => {
                let count = m.visit_count + 1;
                let id = m.match_pair_id.clone();
                let next = MatchPair {
                    match_pair_id: m.match_pair_id,
                    i1: m.i1,
                    i2: m.i2,
                    visit_count: count,
                    winner: m.winner,
                    judge_id: Some(judge.id.clone()),
                };
                proof {
                    if mid.phase() == States::Init {
                        let k = choose|k: Seq<char>| #[trigger]
                            mid.queue_map().contains_key(k) && mid.queue_map()[k] <= 0;
                        assert(mid.queue_map().contains_key(k));
                    }
                }
                queue_change_priority(&mut self.mq, &id, count);
                match_store_insert(&mut self.matches, id, next.copied());
                assert(self.match_map() =~= old(self).match_map().insert(next.match_pair_id@, next));
                assert(self.queue_map() =~= old(self).queue_map().insert(
                    next.match_pair_id@,
                    next.visit_count,
                ));
                Ok(next)
            },
        }
    }

    /// Starts the seed phase with the given pairs of item ids, the pair at
    /// each position stored and queued under the match id at that position,
    /// never served and never judged. This happens, and `true` comes back,
    /// exactly when the phase is `NoState`, there is one match id per pair, the
    /// match ids are distinct and every paired id is an item's; otherwise
    /// nothing changes.
    pub fn seed_pairs(&mut self, pairs: &Vec<(String, String)>, match_ids: &Vec<String>) -> (r:
        bool)
        requires
            old(self).wf(),
        ensures
            final(self).wf(),
            r == (old(self).phase() == States::NoState && pairs@.len() == match_ids@.len()
                && ids_distinct(match_ids@) && pairs_of_items(pairs@, old(self).item_map())),
            r ==> final(self).phase() == States::Init,
            !r ==> final(self).phase() == old(self).phase(),
            !r ==> SchedulerState::same_matches(old(self), final(self)),
            final(self).item_map() == old(self).item_map(),
            final(self).judge_seq() == old(self).judge_seq(),
            r ==> final(self).match_map().dom() == id_views(match_ids@).to_set(),
            r ==> forall|t: int|
                0 <= t < match_ids@.len() ==> #[trigger] final(self).match_map()[match_ids@[t]@]
                    == seeded_match(match_ids@[t], pairs@[t]),
    {
        if self.current_state != States::NoState || pairs.len() != match_ids.len() {
            return false;
        }
        let mut t: usize = 0;
        while t < pairs.len()
            invariant
                *self == *old(self),
                old(self).wf(),
                t <= pairs@.len(),
                forall|x: int| 0 <= x < t ==> pair_of_items(#[trigger] pairs@[x], self.item_map()),
            decreases pairs@.len() - t,
        {
            if item_store_get(&self.items, &pairs[t].0).is_none() || item_store_get(
                &self.items,
                &pairs[t].1,
            ).is_none() {
                proof {
                    SchedulerState::lemma_wf_frame(old(self), self);
                }
                return false;
            }
            t = t + 1;
        }
        proof {
            self.match_map().dom().lemma_len0_is_empty();
            assert(self.queue_map().dom() =~= Set::<Seq<char>>::empty());
        }
        self.current_state = States::Init;
        let mut t: usize = 0;
        while t < pairs.len()
            invariant
                self.wf(),
                self.phase() == States::Init,
                self.item_map() == old(self).item_map(),
                self.judge_seq() == old(self).judge_seq(),
                old(self).phase() == States::NoState,
                old(self).match_map().dom() == Set::<Seq<char>>::empty(),
                old(self).queue_map().dom() == Set::<Seq<char>>::empty(),
                pairs@.len() == match_ids@.len(),
                pairs_of_items(pairs@, old(self).item_map()),
                t <= pairs@.len(),
                ids_distinct(match_ids@.subrange(0, t as int)),
                self.match_map().dom() == id_views(match_ids@.subrange(0, t as int)).to_set(),
                forall|x: int|
                    0 <= x < t ==> #[trigger] self.match_map()[match_ids@[x]@] == seeded_match(
                        match_ids@[x],
                        pairs@[x],
                    ),
            decreases pairs@.len() - t,
        {
            let id = match_ids[t].clone();
            if match_store_get(&self.matches, &id).is_some() {
                proof {
                    let x = choose|x: int|
                        0 <= x < t && #[trigger] match_ids@.subrange(0, t as int)[x]@ == id@;
                    assert(match_ids@[x]@ == match_ids@[t as int]@);
                }
                self.matches = match_store_new();
                self.mq = queue_new();
                self.current_state = States::NoState;
                assert(self.match_map() =~= old(self).match_map());
                assert(self.queue_map() =~= old(self).queue_map());
                return false;
            }
            let ghost before = *self;
            let ghost prev = match_ids@.subrange(0, t as int);
            proof {
                assert forall|x: int| 0 <= x < t implies match_ids@[x]@ != id@ by {
                    assert(id_views(prev)[x] == match_ids@[x]@);
                    assert(id_views(prev).to_set().contains(match_ids@[x]@));
                }
            }
            let m = MatchPair {
                match_pair_id: id.clone(),
                i1: pairs[t].0.clone(),
                i2: pairs[t].1.clone(),
                visit_count: 0,
                winner: None,
                judge_id: None,
            };
            queue_push(&mut self.mq, id.clone(), 0);
            let ghost key = id@;
            match_store_insert(&mut self.matches, id, m);
            proof {
                SchedulerState::lemma_record_mirror(&before, self, self.match_map()[key]);
                let done = match_ids@.subrange(0, t + 1);
                assert(done.drop_last() =~= match_ids@.subrange(0, t as int));
                assert(id_views(done) =~= id_views(prev).push(key));
                assert forall|v: Seq<char>| #[trigger] id_views(done).to_set().contains(v) <==> (
                id_views(prev).to_set().contains(v) || v == key) by {
                    if id_views(done).to_set().contains(v) && v != key {
                        let x = choose|x: int| 0 <= x < id_views(done).len() && id_views(done)[x] == v;
                        assert(id_views(prev)[x] == v);
                    }
                    if id_views(prev).to_set().contains(v) {
                        let x = choose|x: int| 0 <= x < id_views(prev).len() && id_views(prev)[x] == v;
                        assert(id_views(done)[x] == v);
                    }
                    if v == key {
                        assert(id_views(done)[t as int] == v);
                    }
                }
                assert(self.match_map().dom() =~= id_views(done).to_set());
                assert forall|x: int| 0 <= x < t + 1 implies #[trigger] self.match_map()[match_ids@[x]@]
                    == seeded_match(match_ids@[x], pairs@[x]) by {
                    if x < t {
                        assert(match_ids@[x]@ != key);
                    }
                }
                assert forall|a: int, b: int| 0 <= a < b < done.len() implies (#[trigger] done[a])@
                    != (#[trigger] done[b])@ by {
                    if b == t {
                        assert(done[a] == match_ids@[a]);
                    } else {
                        assert(match_ids@.subrange(0, t as int)[a] == done[a]);
                        assert(match_ids@.subrange(0, t as int)[b] == done[b]);
                    }
                }
            }
            t = t + 1;
        }
        assert(match_ids@.subrange(0, t as int) =~= match_ids@);
        true
    }

    /// Starts the seed phase: `n` rounds, each a random order of all items
    /// paired first against last (the first item taking a second turn when the
    /// count is odd), every pair stored and queued with a visit count of zero
    /// under a fresh random id. Returns `false` and changes nothing when the
    /// phase is not `NoState`, or when two drawn match ids coincide.
    pub fn seed_start(&mut self, n: usize) -> (r: bool)
        requires
            old(self).wf(),
        ensures
            final(self).wf(),
            old(self).phase() != States::NoState ==> !r,
            r ==> final(self).phase() == States::Init,
            !r ==> final(self).phase() == old(self).phase(),
            !r ==> SchedulerState::same_matches(old(self), final(self)),
            phase_step(old(self).phase(), final(self).phase()),
            final(self).item_map() == old(self).item_map(),
            final(self).judge_seq() == old(self).judge_seq(),
            old(self).phase() == States::NoState && n * pairs_per_round(
                old(self).item_map().dom().len(),
            ) <= 1 ==> r,
            r ==> final(self).match_map().dom().len() == n * pairs_per_round(
                old(self).item_map().dom().len(),
            ),
            r ==> final(self).queue_map().dom().len() == n * pairs_per_round(
                old(self).item_map().dom().len(),
            ),
            r ==> forall|k: Seq<char>| #[trigger]
                final(self).match_map().contains_key(k) ==> unserved(final(self).match_map()[k]),
            r && old(self).item_map().dom().len() != 1 ==> final(self).no_self_pairs(),
            r ==> exists|pairs: Seq<(String, String)>, ids: Seq<String>|
                #[trigger] SchedulerState::seeded_by(final(self), pairs, ids) && rounds_cover(
                    pairs,
                    n as int,
                    pairs_per_round(old(self).item_map().dom().len()) as int,
                    old(self).item_map(),
                ),
    {
        if self.current_state != States::NoState {
            return false;
        }
        let entries = item_store_entries(&self.items);
        let k = entries.len();
        let mut ids: Vec<String> = Vec::new();
        let mut i: usize = 0;
        while i < k
            invariant
                k == entries@.len(),
                i <= k,
                ids@.len() == i,
                forall|j: int| 0 <= j < i ==> #[trigger] ids@[j] == entries@[j].0,
            decreases k - i,
        {
            ids.push(entries[i].0.clone());
            i = i + 1;
        }
        proof {
            assert forall|a: int, b: int| 0 <= a < k && 0 <= b < k && a != b implies ids@[a]@
                != ids@[b]@ by {
                if a < b {
                    assert(entries@[a].0@ != entries@[b].0@);
                } else {
                    assert(entries@[b].0@ != entries@[a].0@);
                }
            }
            assert forall|a: int| 0 <= a < k implies self.item_map().contains_key(
                #[trigger] ids@[a]@,
            ) by {
                assert(ids@[a] == entries@[a].0);
            }
            assert forall|key: Seq<char>| #[trigger] self.item_map().contains_key(key) implies exists|a: int|
                0 <= a < k && #[trigger] ids@[a]@ == key by {
                let a = choose|a: int| 0 <= a < entries@.len() && entries@[a].0@ == key;
                assert(ids@[a] == entries@[a].0);
            }
        }
        let ghost h = pairs_per_round(k as nat);
        let mut pairs: Vec<(String, String)> = Vec::new();
        let mut match_ids: Vec<String> = Vec::new();
        let mut round: usize = 0;
        while round < n
            invariant
                k == ids@.len() == self.item_map().dom().len(),
                h == pairs_per_round(k as nat),
                round <= n,
                forall|a: int, b: int| 0 <= a < k && 0 <= b < k && a != b ==> ids@[a]@ != ids@[b]@,
                forall|a: int| 0 <= a < k ==> self.item_map().contains_key(#[trigger] ids@[a]@),
                pairs@.len() == match_ids@.len() == round * h,
                pairs_of_items(pairs@, self.item_map()),
                forall|key: Seq<char>| #[trigger] self.item_map().contains_key(key) ==> exists|a: int|
                    0 <= a < k && #[trigger] ids@[a]@ == key,
                forall|r: int| 0 <= r < round ==> #[trigger] round_covers(pairs@, r, h as int, self.item_map()),
                k != 1 ==> forall|x: int|
                    0 <= x < pairs@.len() ==> (#[trigger] pairs@[x]).0@ != pairs@[x].1@,
            decreases n - round,
        {
            let perm = shuffled(positions(k));
            proof {
                lemma_permutation_of_positions(perm@, k as nat);
                lemma_round_size(perm@);
                lemma_round_members(perm@);
                if k != 1 {
                    lemma_round_no_self_pairs(perm@);
                }
            }
            let order = round_pairs(&perm);
            let ghost base: int = round * h;
            let mut j: usize = 0;
            while j < order.len()
                invariant
                    k == ids@.len() == self.item_map().dom().len(),
                    h == pairs_per_round(k as nat) == order@.len(),
                    order@ == round_pairs_of(perm@),
                    perm@.len() == k,
                    forall|x: int| 0 <= x < perm@.len() ==> #[trigger] perm@[x] < k,
                    forall|x: int|
                        0 <= x < round_pairs_of(perm@).len() ==> perm@.contains(
                            #[trigger] round_pairs_of(perm@)[x].0,
                        ) && perm@.contains(round_pairs_of(perm@)[x].1),
                    k != 1 ==> forall|x: int|
                        0 <= x < round_pairs_of(perm@).len() ==> #[trigger] round_pairs_of(
                            perm@,
                        )[x].0 != round_pairs_of(perm@)[x].1,
                    round < n,
                    j <= order@.len(),
                    forall|a: int, b: int|
                        0 <= a < k && 0 <= b < k && a != b ==> ids@[a]@ != ids@[b]@,
                    forall|a: int| 0 <= a < k ==> self.item_map().contains_key(#[trigger] ids@[a]@),
                    pairs@.len() == match_ids@.len() == round * h + j,
                    pairs_of_items(pairs@, self.item_map()),
                    base == round * h,
                    forall|key: Seq<char>| #[trigger] self.item_map().contains_key(key) ==> exists|a: int|
                        0 <= a < k && #[trigger] ids@[a]@ == key,
                    forall|x: int| 0 <= x < k ==> #[trigger] perm@.contains(x as usize),
                    forall|r: int| 0 <= r < round ==> #[trigger] round_covers(pairs@, r, h as int, self.item_map()),
                    forall|i: int| 0 <= i < j ==> #[trigger] pairs@[base + i].0@ == ids@[order@[i].0 as int]@
                        && pairs@[base + i].1@ == ids@[order@[i].1 as int]@,
                    k != 1 ==> forall|x: int|
                        0 <= x < pairs@.len() ==> (#[trigger] pairs@[x]).0@ != pairs@[x].1@,
                decreases order@.len() - j,
            {
                let (a, b) = order[j];
                proof {
                    assert(order@[j as int] == round_pairs_of(perm@)[j as int]);
                    assert(perm@.contains(a));
                    assert(perm@.contains(b));
                }
                let ghost before = pairs@;
                pairs.push((ids[a].clone(), ids[b].clone()));
                match_ids.push(fresh_id());
                proof {
                    assert forall|r: int| 0 <= r < round implies #[trigger] round_covers(
                        pairs@,
                        r,
                        h as int,
                        self.item_map(),
                    ) by {
                        assert(0 <= r * h && r * h + h <= round * h) by (nonlinear_arith)
                            requires
                                0 <= r < round,
                                h >= 0,
                        ;
                        lemma_round_covers_extend(before, pairs@, r, h as int, self.item_map());
                    }
                    assert(pairs@[base + j as int] == (ids@[a as int], ids@[b as int]));
                }
                j = j + 1;
            }
            proof {
                lemma_round_covers(perm@);
                assert forall|key: Seq<char>| #[trigger] self.item_map().contains_key(key) implies exists|i: int|
                    round * h <= i < round * h + h && #[trigger] has_side(pairs@[i], key) by {
                    let a = choose|a: int| 0 <= a < k && #[trigger] ids@[a]@ == key;
                    assert(perm@.contains(a as usize));
                    let x = choose|x: int| 0 <= x < perm@.len() && perm@[x] == a as usize;
                    assert(plays_in(round_pairs_of(perm@), perm@[x]));
                    let i = choose|i: int|
                        0 <= i < round_pairs_of(perm@).len() && ((#[trigger] round_pairs_of(perm@)[i]).0
                            == perm@[x] || round_pairs_of(perm@)[i].1 == perm@[x]);
                    assert(order@[i] == round_pairs_of(perm@)[i]);
                    assert(has_side(pairs@[base + i], key));
                }
                assert(round_covers(pairs@, round as int, h as int, self.item_map()));
                assert(round * h + h == (round + 1) * h) by (nonlinear_arith);
            }
            round = round + 1;
        }
        proof {
            assert(ids_distinct(match_ids@) || match_ids@.len() > 1);
        }
        let r = self.seed_pairs(&pairs, &match_ids);
        proof {
            if r {
                id_views(match_ids@).unique_seq_to_set();
                assert(self.queue_map().dom() =~= self.match_map().dom());
                assert forall|key: Seq<char>| #[trigger]
                    self.match_map().contains_key(key) implies unserved(self.match_map()[key]) && (k
                    != 1 ==> self.match_map()[key].i1@ != self.match_map()[key].i2@) by {
                    assert(id_views(match_ids@).contains(key));
                    let t = choose|t: int| 0 <= t < id_views(match_ids@).len() && id_views(match_ids@)[t] == key;
                    assert(self.match_map()[match_ids@[t]@] == seeded_match(match_ids@[t], pairs@[t]));
                }
                assert(SchedulerState::seeded_by(self, pairs@, match_ids@));
            }
        }
        r
    }

    /// A separate map holding the same match pairs as the store.
    pub fn get_matches(&self) -> (r: MatchStore)
        ensures
            match_entries(r) == self.match_map(),
    {
        match_store_copy(&self.matches)
    }

    /// Records `winner` on the match, replacing an earlier verdict, and says
    /// which rating update it calls for: none when the match pairs an item
    /// with itself, else the two items as they stand with the winning side.
    /// The match stays in the store and the queue with its visit count.
    pub fn judge_match(&mut self, _judge: &Judge, match_id: &str, winner: MatchWinner) -> (r:
        Result<Option<RatingUpdate>, SchedulerError>)
        requires
            old(self).wf(),
        ensures
            final(self).wf(),
            final(self).phase() == old(self).phase(),
            final(self).item_map() == old(self).item_map(),
            final(self).queue_map() == old(self).queue_map(),
            final(self).judge_seq() == old(self).judge_seq(),
            old(self).no_self_pairs() ==> final(self).no_self_pairs(),
            r is Err <==> !old(self).match_map().contains_key(match_id@),
            r is Err ==> fails_with(r, ErrorKind::NotFound) && final(self).match_map() == old(
                self,
            ).match_map(),
            r is Ok ==> final(self).match_map() == old(self).match_map().insert(
                match_id@,
                judged(old(self).match_map()[match_id@], winner),
            ),
            r is Ok ==> (r matches Ok(None) <==> old(self).match_map()[match_id@].i1@ == old(
                self,
            ).match_map()[match_id@].i2@),
            r matches Ok(Some(u)) ==> u.first == old(self).item_map()[old(
                self,
            ).match_map()[match_id@].i1@] && u.second == old(self).item_map()[old(
                self,
            ).match_map()[match_id@].i2@] && u.winner == elo_side(winner),
    {
        let m = match match_store_get(&self.matches, match_id) {
            Some(m) => m,
            None => {
                return Err(SchedulerError::with_kind(ErrorKind::NotFound, "no match with this id"));
            },
        };
        let ghost before = *self;
        let key = m.match_pair_id.clone();
        let recorded = MatchPair {
            match_pair_id: m.match_pair_id.clone(),
            i1: m.i1.clone(),
            i2: m.i2.clone(),
            visit_count: m.visit_count,
            winner: Some(winner),
            judge_id: m.judge_id,
        };
        match_store_insert(&mut self.matches, key, recorded);
        proof {
            assert(self.queue_map() =~= before.queue_map().insert(match_id@, m.visit_count));
            SchedulerState::lemma_record_mirror(&before, self, self.match_map()[match_id@]);
        }
        if m.i1 == m.i2 {
            return Ok(None);
        }
        let first = item_store_get(&self.items, &m.i1);
        let second = item_store_get(&self.items, &m.i2);
        match (first, second) {
            (Some(first), Some(second)) => {
                let side = match winner {
                    MatchWinner::A => Winner::P1,
                    MatchWinner::B => Winner::P2,
                };
                Ok(Some(RatingUpdate { first, second, winner: side }))
            },
            _ => Err(SchedulerError::with_kind(ErrorKind::NotFound, "no item with this id")),
        }
    }

    /// Sets the rating of the item with the given id; `false` when there is none.
    pub fn set_score(&mut self, id: &str, score_bits: u64) -> (r: bool)
        requires
            old(self).wf(),
        ensures
            final(self).wf(),
            r == old(self).item_map().contains_key(id@),
            r ==> final(self).item_map() == old(self).item_map().insert(
                id@,
                rescored(old(self).item_map()[id@], score_bits),
            ),
            !r ==> final(self).item_map() == old(self).item_map(),
            final(self).phase() == old(self).phase(),
            final(self).match_map() == old(self).match_map(),
            final(self).queue_map() == old(self).queue_map(),
            final(self).judge_seq() == old(self).judge_seq(),
    {
        match item_store_get(&self.items, id) {
            Some(item) => {
                let key = item.id.clone();
                let updated = Item {
                    id: item.id,
                    name: item.name,
                    location: item.location,
                    description: item.description,
                    score_bits,
                };
                item_store_insert(&mut self.items, key, updated);
                proof {
                    SchedulerState::lemma_mirror_frame(old(self), self);
                }
                true
            },
            None => false,
        }
    }
}

} // verus!
