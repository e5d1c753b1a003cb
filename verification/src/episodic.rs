use vstd::prelude::*;
use std::collections::VecDeque;

verus! {

/// The image of `id` under an old-to-new id mapping; an id past the end of
/// the mapping has no image.
pub open spec fn lookup(mapping: Seq<Option<usize>>, id: usize) -> Option<usize> {
    if id < mapping.len() {
        mapping[id as int]
    } else {
        None
    }
}

/// `s` with each id replaced by its image under `mapping`; ids without an
/// image are dropped and the order of the rest is kept.
pub open spec fn remap_seq(s: Seq<usize>, mapping: Seq<Option<usize>>) -> Seq<usize>
    decreases s.len(),
{
    if s.len() == 0 {
        Seq::empty()
    } else {
        let rest = remap_seq(s.drop_last(), mapping);
        match lookup(mapping, s.last()) {
            Some(v) => rest.push(v),
            None => rest,
        }
    }
}

/// Remapping never lengthens a sequence.
pub proof fn lemma_remap_seq_len(s: Seq<usize>, mapping: Seq<Option<usize>>)
    ensures
        remap_seq(s, mapping).len() <= s.len(),
    decreases s.len(),
{
    if s.len() > 0 {
        lemma_remap_seq_len(s.drop_last(), mapping);
    }
}

/// Each episode remapped with `remap_seq`.
pub open spec fn remap_each(eps: Seq<Seq<usize>>, mapping: Seq<Option<usize>>) -> Seq<Seq<usize>> {
    Seq::new(eps.len(), |i: int| remap_seq(eps[i], mapping))
}

/// The episodes of length at least two, in their order.
pub open spec fn prune_short(eps: Seq<Seq<usize>>) -> Seq<Seq<usize>>
    decreases eps.len(),
{
    if eps.len() == 0 {
        Seq::empty()
    } else {
        let rest = prune_short(eps.drop_last());
        if eps.last().len() >= 2 {
            rest.push(eps.last())
        } else {
            rest
        }
    }
}

/// Whether the last `k` ids of `ctx` equal the first `k` ids of `e`.
pub open spec fn overlaps(e: Seq<usize>, ctx: Seq<usize>, k: nat) -> bool {
    k <= ctx.len() && k <= e.len() && ctx.subrange(ctx.len() - k, ctx.len() as int) == e.subrange(0, k as int)
}

/// The largest `j` in `1..=k` for which `ctx` ends with the first `j` ids of `e`, or 0.
pub open spec fn longest_overlap_upto(e: Seq<usize>, ctx: Seq<usize>, k: nat) -> nat
    decreases k,
{
    if k == 0 {
        0
    } else if overlaps(e, ctx, k) {
        k
    } else {
        longest_overlap_upto(e, ctx, (k - 1) as nat)
    }
}

/// The overlap found searching down from `k` is at most `k`, and it is either
/// 0 or a genuine overlap.
pub proof fn lemma_overlap_upto_bounded(e: Seq<usize>, ctx: Seq<usize>, k: nat)
    ensures
        longest_overlap_upto(e, ctx, k) <= k,
        longest_overlap_upto(e, ctx, k) == 0 || overlaps(e, ctx, longest_overlap_upto(e, ctx, k)),
    decreases k,
{
    if k > 0 && !overlaps(e, ctx, k) {
        lemma_overlap_upto_bounded(e, ctx, (k - 1) as nat);
    }
}

/// The longest overlap of the end of `ctx` with a proper prefix of `e`
/// (one that leaves at least one id of `e` to predict).
pub open spec fn match_len(e: Seq<usize>, ctx: Seq<usize>) -> nat {
    let bound = if ctx.len() <= e.len() - 1 { ctx.len() } else { (e.len() - 1) as nat };
    longest_overlap_upto(e, ctx, bound)
}

/// Scanning the episodes in order, the longest overlap seen so far and the id
/// that followed it; a later episode replaces the best only with a strictly
/// longer overlap. Episodes shorter than two are skipped.
pub open spec fn best_match(eps: Seq<Seq<usize>>, ctx: Seq<usize>) -> (nat, Option<usize>)
    decreases eps.len(),
{
    if eps.len() == 0 {
        (0, None)
    } else {
        let prev = best_match(eps.drop_last(), ctx);
        let e = eps.last();
        if e.len() >= 2 && match_len(e, ctx) > prev.0 {
            (match_len(e, ctx), Some(e[match_len(e, ctx) as int]))
        } else {
            prev
        }
    }
}

/// The prediction of `recall`: nothing for an empty context, else the id that
/// follows the best overlap.
pub open spec fn recall_spec(eps: Seq<Seq<usize>>, ctx: Seq<usize>) -> Option<usize> {
    if ctx.len() == 0 {
        None
    } else {
        best_match(eps, ctx).1
    }
}

/// `remap_seq` computed on a vector.
fn remap_ids(ids: &Vec<usize>, mapping: &[Option<usize>]) -> (out: Vec<usize>)
    ensures
        out@ == remap_seq(ids@, mapping@),
{
    let mut out: Vec<usize> = Vec::new();
    let mut i: usize = 0;
    while i < ids.len()
        invariant
            i <= ids.len(),
            out@ == remap_seq(ids@.take(i as int), mapping@),
        decreases ids.len() - i,
    {
        let old_id = ids[i];
        assert(ids@.take(i + 1).drop_last() =~= ids@.take(i as int));
        if old_id < mapping.len() {
            match mapping[old_id] {
                Some(v) => out.push(v),
                None => {},
            }
        }
        i += 1;
    }
    assert(ids@.take(ids.len() as int) =~= ids@);
    out
}

/// Whether the last `k` ids of `context` equal the first `k` ids of `ep`.
fn suffix_matches_prefix(context: &[usize], ep: &Vec<usize>, k: usize) -> (b: bool)
    requires
        k <= context.len(),
        k <= ep.len(),
    ensures
        b == overlaps(ep@, context@, k as nat),
{
    let start = context.len() - k;
    let mut j: usize = 0;
    while j < k
        invariant
            j <= k,
            start == context.len() - k,
            k <= context.len(),
            k <= ep.len(),
            forall|t: int| 0 <= t < j ==> context@[start + t] == ep@[t],
        decreases k - j,
    {
        if context[start + j] != ep[j] {
            assert(context@.subrange(start as int, context.len() as int)[j as int] != ep@.subrange(0, k as int)[j as int]);
            return false;
        }
        j += 1;
    }
    assert(context@.subrange(start as int, context.len() as int) =~= ep@.subrange(0, k as int));
    true
}

/// `match_len` computed by trying overlaps from the longest down.
fn overlap_len(ep: &Vec<usize>, context: &[usize]) -> (m: usize)
    requires
        ep.len() >= 2,
    ensures
        m == match_len(ep@, context@),
        m < ep.len(),
{
    proof {
        let bound = if context@.len() <= ep@.len() - 1 { context@.len() } else { (ep@.len() - 1) as nat };
        lemma_overlap_upto_bounded(ep@, context@, bound);
    }
    let max_check = if context.len() <= ep.len() - 1 { context.len() } else { ep.len() - 1 };
    let mut k = max_check;
    while k > 0
        invariant
            k <= max_check,
            max_check <= context.len(),
            max_check <= ep.len() - 1,
            match_len(ep@, context@) == longest_overlap_upto(ep@, context@, k as nat),
        decreases k,
    {
        if suffix_matches_prefix(context, ep, k) {
            return k;
        }
        k -= 1;
    }
    0
}

/// A stored episode: the sequence of concept ids visited.
pub struct Episode {
    pub sequence: Vec<usize>,
}

/// Memory of past episodes used to predict the next id from a context.
pub struct EpisodicMemory {
    episodes: Vec<Episode>,
    max_len: usize,
}

impl View for EpisodicMemory {
    type V = Seq<Seq<usize>>;

    closed spec fn view(&self) -> Seq<Seq<usize>> {
        self.episodes@.map_values(|e: Episode| e.sequence@)
    }
}

impl EpisodicMemory {
    /// The episode length given at construction (kept, not enforced).
    pub closed spec fn spec_max_len(&self) -> usize {
        self.max_len
    }

    pub fn new(max_episode_len: usize) -> (m: Self)
        ensures
            m@ == Seq::<Seq<usize>>::empty(),
            m.spec_max_len() == max_episode_len,
    {
        EpisodicMemory { episodes: Vec::new(), max_len: max_episode_len }
    }

    pub fn store(&mut self, sequence: &[usize])
        ensures
            final(self)@ == old(self)@.push(sequence@),
            final(self).spec_max_len() == old(self).spec_max_len(),
    {
        let mut seq: Vec<usize> = Vec::new();
        let mut i: usize = 0;
        while i < sequence.len()
            invariant
                i <= sequence.len(),
                seq@ == sequence@.take(i as int),
            decreases sequence.len() - i,
        {
            seq.push(sequence[i]);
            i += 1;
        }
        assert(seq@ =~= sequence@);
        self.episodes.push(Episode { sequence: seq });
        assert(self@ =~= old(self)@.push(sequence@));
    }

    /// Reindexes every stored sequence with an old-to-new mapping: ids that map
    /// to `None` (or lie past the mapping) are removed, and episodes shorter
    /// than two afterwards are pruned, as they can never match a recall context.
    pub fn remap(&mut self, mapping: &[Option<usize>])
        ensures
            final(self)@ == prune_short(remap_each(old(self)@, mapping@)),
            final(self).spec_max_len() == old(self).spec_max_len(),
    {
        let ghost target = remap_each(old(self)@, mapping@);
        let mut kept: Vec<Episode> = Vec::new();
        let mut i: usize = 0;
        while i < self.episodes.len()
            invariant
                i <= self.episodes.len(),
                self.episodes@ == old(self).episodes@,
                self@ == old(self)@,
                target == remap_each(old(self)@, mapping@),
                kept@.map_values(|e: Episode| e.sequence@) == prune_short(target.take(i as int)),
            decreases self.episodes.len() - i,
        {
            let seq = remap_ids(&self.episodes[i].sequence, mapping);
            assert(target.take(i + 1).drop_last() =~= target.take(i as int));
            assert(self@[i as int] == self.episodes@[i as int].sequence@);
            assert(target.take(i + 1).last() == seq@);
            if seq.len() >= 2 {
                let ghost before = kept@;
                kept.push(Episode { sequence: seq });
                assert(kept@.map_values(|e: Episode| e.sequence@) =~= before.map_values(
                    |e: Episode| e.sequence@,
                ).push(kept@.last().sequence@));
            }
            i += 1;
        }
        assert(target.take(target.len() as int) =~= target);
        self.episodes = kept;
    }

    /// The stored sequence at position `idx`, if there is one.
    pub fn get_sequence(&self, idx: usize) -> (r: Option<&[usize]>)
        ensures
            match r {
                Some(s) => idx < self@.len() && s@ == self@[idx as int],
                None => idx >= self@.len(),
            },
    {
        if idx < self.episodes.len() {
            Some(self.episodes[idx].sequence.as_slice())
        } else {
            None
        }
    }

    /// Predicts the id that follows `context`: over all episodes of length at
    /// least two, the longest run at the end of `context` that equals the start
    /// of an episode (leaving one id of it after the run) selects the episode,
    /// the earliest one on ties, and the id after the run is returned.
    pub fn recall(&self, context: &[usize]) -> (r: Option<usize>)
        ensures
            r == recall_spec(self@, context@),
    {
        if context.len() == 0 {
            return None;
        }
        let mut best_len: usize = 0;
        let mut best_next: Option<usize> = None;
        let mut i: usize = 0;
        while i < self.episodes.len()
            invariant
                i <= self.episodes.len(),
                context.len() > 0,
                (best_len as nat, best_next) == best_match(self@.take(i as int), context@),
            decreases self.episodes.len() - i,
        {
            let ep = &self.episodes[i].sequence;
            assert(self@.take(i + 1).drop_last() =~= self@.take(i as int));
            assert(self@.take(i + 1).last() == ep@);
            if ep.len() >= 2 {
                let m = overlap_len(ep, context);
                if m > best_len {
                    best_len = m;
                    best_next = Some(ep[m]);
                }
            }
            i += 1;
        }
        assert(self@.take(self@.len() as int) =~= self@);
        best_next
    }

    pub fn len(&self) -> (n: usize)
        ensures
            n == self@.len(),
    {
        self.episodes.len()
    }
}

/// The most recent ids seen, at most `max_len` of them (at least one is kept
/// once something was pushed, even for a zero length).
pub struct ContextBuffer {
    buffer: VecDeque<usize>,
    max_len: usize,
}

impl View for ContextBuffer {
    type V = Seq<usize>;

    closed spec fn view(&self) -> Seq<usize> {
        self.buffer@
    }
}

impl ContextBuffer {
    /// The window length given at construction.
    pub closed spec fn spec_max_len(&self) -> usize {
        self.max_len
    }

    /// The buffer holds no more than its window (a zero window still holds one id).
    pub open spec fn wf(&self) -> bool {
        self@.len() <= if self.spec_max_len() == 0 { 1 } else { self.spec_max_len() as int }
    }

    pub fn new(max_len: usize) -> (b: Self)
        ensures
            b@ == Seq::<usize>::empty(),
            b.spec_max_len() == max_len,
            b.wf(),
    {
        ContextBuffer { buffer: VecDeque::new(), max_len }
    }

    /// Appends `word`, first dropping the oldest id when the window is full.
    pub fn push(&mut self, word: usize)
        ensures
            final(self)@ == if old(self)@.len() >= old(self).spec_max_len() && old(self)@.len() > 0 {
                old(self)@.drop_first().push(word)
            } else {
                old(self)@.push(word)
            },
            final(self).spec_max_len() == old(self).spec_max_len(),
            old(self).wf() ==> final(self).wf(),
    {
        if self.buffer.len() >= self.max_len {
            self.buffer.pop_front();
        }
        self.buffer.push_back(word);
    }

    /// The ids in the buffer, oldest first.
    pub fn as_slice(&self) -> (v: Vec<usize>)
        ensures
            v@ == self@,
    {
        let mut v: Vec<usize> = Vec::new();
        let mut i: usize = 0;
        while i < self.buffer.len()
            invariant
                i <= self.buffer@.len(),
                v@ == self.buffer@.take(i as int),
            decreases self.buffer@.len() - i,
        {
            v.push(self.buffer[i]);
            i += 1;
        }
        assert(v@ =~= self.buffer@);
        v
    }

    /// Reindexes the buffered ids with an old-to-new mapping, dropping the
    /// ids without an image.
    pub fn remap(&mut self, mapping: &[Option<usize>])
        ensures
            final(self)@ == remap_seq(old(self)@, mapping@),
            final(self).spec_max_len() == old(self).spec_max_len(),
            old(self).wf() ==> final(self).wf(),
    {
        let mut out: VecDeque<usize> = VecDeque::new();
        let mut i: usize = 0;
        while i < self.buffer.len()
            invariant
                i <= self.buffer@.len(),
                self.buffer@ == old(self).buffer@,
                self.max_len == old(self).max_len,
                out@ == remap_seq(self.buffer@.take(i as int), mapping@),
            decreases self.buffer@.len() - i,
        {
            let old_id = self.buffer[i];
            assert(self.buffer@.take(i + 1).drop_last() =~= self.buffer@.take(i as int));
            if old_id < mapping.len() {
                match mapping[old_id] {
                    Some(v) => out.push_back(v),
                    None => {},
                }
            }
            i += 1;
        }
        assert(self.buffer@.take(self.buffer@.len() as int) =~= self.buffer@);
        proof {
            lemma_remap_seq_len(self.buffer@, mapping@);
        }
        self.buffer = out;
    }
}

// ───────────────────────── laws ─────────────────────────

/// The mapping that sends `i` to `g`'s image of `f`'s image of `i`.
pub open spec fn compose(f: Seq<Option<usize>>, g: Seq<Option<usize>>) -> Seq<Option<usize>> {
    Seq::new(
        f.len(),
        |i: int|
            match f[i] {
                Some(j) => lookup(g, j),
                None => None,
            },
    )
}

/// Remapping by `f` and then by `g` is remapping by their composition.
pub proof fn lemma_remap_seq_compose(s: Seq<usize>, f: Seq<Option<usize>>, g: Seq<Option<usize>>)
    ensures
        remap_seq(remap_seq(s, f), g) == remap_seq(s, compose(f, g)),
    decreases s.len(),
{
    if s.len() > 0 {
        lemma_remap_seq_compose(s.drop_last(), f, g);
        let rest = remap_seq(s.drop_last(), f);
        match lookup(f, s.last()) {
            Some(v) => {
                assert(rest.push(v).drop_last() =~= rest);
            },
            None => {},
        }
    }
}

/// Pruning after remapping keeps nothing that a first pruning had dropped:
/// remapping never lengthens an episode.
proof fn lemma_prune_remap_prune(eps: Seq<Seq<usize>>, g: Seq<Option<usize>>)
    ensures
        prune_short(remap_each(prune_short(eps), g)) == prune_short(remap_each(eps, g)),
    decreases eps.len(),
{
    if eps.len() > 0 {
        let init = eps.drop_last();
        lemma_prune_remap_prune(init, g);
        assert(remap_each(eps, g).drop_last() =~= remap_each(init, g));
        if eps.last().len() >= 2 {
            assert(remap_each(prune_short(eps), g) =~= remap_each(prune_short(init), g).push(remap_seq(eps.last(), g)));
            assert(remap_each(prune_short(eps), g).drop_last() =~= remap_each(prune_short(init), g));
        } else {
            lemma_remap_seq_len(eps.last(), g);
        }
    }
}

proof fn lemma_remap_each_compose(eps: Seq<Seq<usize>>, f: Seq<Option<usize>>, g: Seq<Option<usize>>)
    ensures
        remap_each(remap_each(eps, f), g) == remap_each(eps, compose(f, g)),
{
    assert forall|i: int| 0 <= i < eps.len() implies remap_each(remap_each(eps, f), g)[i] == remap_each(eps, compose(f, g))[i] by {
        lemma_remap_seq_compose(eps[i], f, g);
    }
    assert(remap_each(remap_each(eps, f), g) =~= remap_each(eps, compose(f, g)));
}

/// Remapping a memory by `f` and then by `g` (each call pruning short
/// episodes) leaves what a single remap by the composition leaves.
pub proof fn lemma_memory_remap_compose(eps: Seq<Seq<usize>>, f: Seq<Option<usize>>, g: Seq<Option<usize>>)
    ensures
        prune_short(remap_each(prune_short(remap_each(eps, f)), g)) == prune_short(remap_each(eps, compose(f, g))),
{
    lemma_prune_remap_prune(remap_each(eps, f), g);
    lemma_remap_each_compose(eps, f, g);
}

/// A mapping that sends every id below its length to itself.
pub open spec fn is_identity(mapping: Seq<Option<usize>>) -> bool {
    forall|i: int| 0 <= i < mapping.len() ==> mapping[i] == Some(i as usize)
}

/// Remapping by the identity keeps a sequence whose ids the mapping covers.
pub proof fn lemma_remap_identity(s: Seq<usize>, mapping: Seq<Option<usize>>)
    requires
        is_identity(mapping),
        forall|i: int| 0 <= i < s.len() ==> s[i] < mapping.len(),
    ensures
        remap_seq(s, mapping) == s,
    decreases s.len(),
{
    if s.len() > 0 {
        lemma_remap_identity(s.drop_last(), mapping);
        assert(s.drop_last().push(s.last()) =~= s);
    }
}

/// What `recall` predicts follows the end of the context in some stored
/// episode, and no episode shares a longer stretch with the end of the
/// context; if some episode shares any stretch, a prediction is made.
pub proof fn lemma_recall_longest_match(eps: Seq<Seq<usize>>, ctx: Seq<usize>)
    requires
        ctx.len() > 0,
    ensures
        recall_spec(eps, ctx) matches Some(v) ==> exists|i: int, k: nat|
            0 <= i < eps.len() && 1 <= k < eps[i].len() && #[trigger] overlaps(eps[i], ctx, k) && eps[i][k as int] == v
                && forall|j: int, m: nat| 0 <= j < eps.len() && 1 <= m < eps[j].len() && #[trigger] overlaps(eps[j], ctx, m) ==> m <= k,
        (exists|j: int, m: nat| 0 <= j < eps.len() && 1 <= m < eps[j].len() && #[trigger] overlaps(eps[j], ctx, m))
            ==> recall_spec(eps, ctx) is Some,
{
    lemma_best_match(eps, ctx);
}

/// Every proper prefix of `e` that `ctx` ends with is no longer than the
/// longest one found by `match_len`, which is itself such a prefix.
proof fn lemma_match_len_max(e: Seq<usize>, ctx: Seq<usize>, m: nat)
    requires
        e.len() >= 2,
        1 <= m < e.len(),
        overlaps(e, ctx, m),
    ensures
        m <= match_len(e, ctx),
{
    let bound = if ctx.len() <= e.len() - 1 { ctx.len() } else { (e.len() - 1) as nat };
    lemma_overlap_upto_max(e, ctx, bound, m);
}

proof fn lemma_overlap_upto_max(e: Seq<usize>, ctx: Seq<usize>, k: nat, m: nat)
    requires
        1 <= m <= k,
        overlaps(e, ctx, m),
    ensures
        m <= longest_overlap_upto(e, ctx, k),
    decreases k,
{
    if k > m && !overlaps(e, ctx, k) {
        lemma_overlap_upto_max(e, ctx, (k - 1) as nat, m);
    }
}

proof fn lemma_best_match(eps: Seq<Seq<usize>>, ctx: Seq<usize>)
    ensures
        best_match(eps, ctx).0 == 0 <==> best_match(eps, ctx).1 is None,
        best_match(eps, ctx).1 matches Some(v) ==> exists|i: int, k: nat|
            0 <= i < eps.len() && 1 <= k < eps[i].len() && #[trigger] overlaps(eps[i], ctx, k) && eps[i][k as int] == v
                && k == best_match(eps, ctx).0,
        forall|j: int, m: nat| 0 <= j < eps.len() && 1 <= m < eps[j].len() && #[trigger] overlaps(eps[j], ctx, m) ==> m <= best_match(eps, ctx).0,
    decreases eps.len(),
{
    if eps.len() > 0 {
        let init = eps.drop_last();
        lemma_best_match(init, ctx);
        let e = eps.last();
        if e.len() >= 2 {
            let bound = if ctx.len() <= e.len() - 1 { ctx.len() } else { (e.len() - 1) as nat };
            lemma_overlap_upto_bounded(e, ctx, bound);
        }
        let prev = best_match(init, ctx);
        if prev.1 is Some {
            let (i, k) = choose|i: int, k: nat|
                0 <= i < init.len() && 1 <= k < init[i].len() && #[trigger] overlaps(init[i], ctx, k) && init[i][k as int] == prev.1->0
                    && k == prev.0;
            assert(eps[i] == init[i]);
        }
        assert forall|j: int, m: nat| 0 <= j < eps.len() && 1 <= m < eps[j].len() && #[trigger] overlaps(eps[j], ctx, m) implies m <= best_match(eps, ctx).0 by {
            if j < eps.len() - 1 {
                assert(eps[j] == init[j]);
            } else {
                lemma_match_len_max(e, ctx, m);
            }
        }
        if e.len() >= 2 && match_len(e, ctx) > prev.0 {
            assert(overlaps(eps[eps.len() - 1], ctx, match_len(e, ctx)));
        }
    }
}

/// A memory holding the one sequence `s`, given a proper prefix of `s` as
/// context, recalls the id of `s` that follows that prefix.
pub proof fn lemma_recall_stored_prefix(s: Seq<usize>, k: nat)
    requires
        1 <= k < s.len(),
    ensures
        recall_spec(seq![s], s.take(k as int)) == Some(s[k as int]),
{
    let ctx = s.take(k as int);
    assert(ctx.subrange(ctx.len() - k, ctx.len() as int) =~= s.subrange(0, k as int));
    assert(overlaps(s, ctx, k));
    assert(match_len(s, ctx) == k);
    let eps = seq![s];
    assert(eps.drop_last() =~= Seq::<Seq<usize>>::empty());
    assert(best_match(eps.drop_last(), ctx) == (0nat, None::<usize>));
    assert(eps.last() == s);
    assert(best_match(eps, ctx) == (k, Some(s[k as int])));
}

/// Pushing keeps the buffer within its window and puts the new id last.
pub proof fn lemma_push_window(before: Seq<usize>, after: Seq<usize>, max_len: usize, word: usize)
    requires
        before.len() <= if max_len == 0 { 1 } else { max_len as int },
        after == (if before.len() >= max_len && before.len() > 0 {
            before.drop_first().push(word)
        } else {
            before.push(word)
        }),
    ensures
        after.len() <= if max_len == 0 { 1 } else { max_len as int },
        after.last() == word,
        after.drop_last() == before || after.drop_last() == before.drop_first(),
{
    assert(before.push(word).drop_last() =~= before);
    if before.len() > 0 {
        assert(before.drop_first().push(word).drop_last() =~= before.drop_first());
    }
}

} // verus!
