//! The prompt runs of a bench session: every model, bench and run number,
//! less the runs already done, queued per model.
use crate::bench_id::BenchId;
use crate::model::{ModelId, SelectedModels};
use crate::text::str_eq;
use vstd::prelude::*;

verus! {

/// Unique hash assigned to a model + run + bench combination.
#[derive(Debug, Clone, Copy, PartialEq, Eq, Structural)]
pub struct RunHash(pub u64);

/// Hash of the inputs of a prompt request.
#[derive(Debug, Clone, Copy, PartialEq, Eq, Structural)]
pub struct PromptHash(pub u64);

/// What a bench run knows about itself: its run number, its model, and the
/// hash of the combination.
pub struct BenchCtx {
    pub run_number: u32,
    pub model: ModelId,
    pub run_hash: RunHash,
}

/// One run to perform: a bench, for a model, with a run number.
pub struct RunPayload {
    pub ctx: BenchCtx,
    pub bench: BenchId,
}

/// The (model, bench, run number) of a payload.
pub open spec fn payload_view(p: RunPayload) -> (Seq<char>, Seq<char>, u32) {
    (p.ctx.model@, p.bench.text(), p.ctx.run_number)
}

/// Runs `0..n` of one bench for one model.
pub open spec fn runs_of(model: ModelId, bench: BenchId, n: nat) -> Seq<(Seq<char>, Seq<char>, u32)>
    decreases n,
{
    if n == 0 {
        Seq::empty()
    } else {
        runs_of(model, bench, (n - 1) as nat).push((model@, bench.text(), (n - 1) as u32))
    }
}

/// Runs of every bench, in order, for one model.
pub open spec fn model_runs(model: ModelId, benches: Seq<BenchId>, n: nat) -> Seq<
    (Seq<char>, Seq<char>, u32),
>
    decreases benches.len(),
{
    if benches.len() == 0 {
        Seq::empty()
    } else {
        model_runs(model, benches.drop_last(), n) + runs_of(model, benches.last(), n)
    }
}

/// Every run of a session: models in order, for each every bench in order,
/// for each run numbers `0..n`.
pub open spec fn batch_plan(models: Seq<ModelId>, benches: Seq<BenchId>, n: nat) -> Seq<
    (Seq<char>, Seq<char>, u32),
>
    decreases models.len(),
{
    if models.len() == 0 {
        Seq::empty()
    } else {
        batch_plan(models.drop_last(), benches, n) + model_runs(models.last(), benches, n)
    }
}

pub proof fn lemma_runs_of_len(model: ModelId, bench: BenchId, n: nat)
    ensures
        runs_of(model, bench, n).len() == n,
    decreases n,
{
    if n > 0 {
        lemma_runs_of_len(model, bench, (n - 1) as nat);
    }
}

pub proof fn lemma_model_runs_len(model: ModelId, benches: Seq<BenchId>, n: nat)
    ensures
        model_runs(model, benches, n).len() == benches.len() * n,
    decreases benches.len(),
{
    if benches.len() > 0 {
        lemma_model_runs_len(model, benches.drop_last(), n);
        lemma_runs_of_len(model, benches.last(), n);
        assert(benches.len() * n == (benches.len() - 1) * n + n) by (nonlinear_arith);
    }
}

/// A session plans one run per model, bench and run number.
pub proof fn lemma_batch_plan_len(models: Seq<ModelId>, benches: Seq<BenchId>, n: nat)
    ensures
        batch_plan(models, benches, n).len() == models.len() * (benches.len() * n),
    decreases models.len(),
{
    if models.len() > 0 {
        lemma_batch_plan_len(models.drop_last(), benches, n);
        lemma_model_runs_len(models.last(), benches, n);
        let k = benches.len() * n;
        assert(models.len() * k == (models.len() - 1) * k + k) by (nonlinear_arith);
    }
}

/// What `twox_hash::XxHash3_64::oneshot_with_seed` gives for a seed and an
/// input: the 64-bit XXH3 digest of the bytes.
pub uninterp spec fn xxh3_64_with_seed(seed: u64, input: Seq<u8>) -> u64;

/// `twox_hash::XxHash3_64::oneshot_with_seed`: the XXH3 digest of `input`
/// with `seed`, named here. The crate reads the input bytes in a fixed
/// (little-endian) order, so the digest is a function of the bytes alone.
#[verifier::external_body]
fn xxh3_digest(seed: u64, input: &[u8]) -> (r: u64)
    ensures
        r == xxh3_64_with_seed(seed, input@),
{
    twox_hash::XxHash3_64::oneshot_with_seed(seed, input)
}

/// The seed of the run hash.
pub const RUN_HASH_SEED: u64 = 1337;

/// The `k` low bytes of `n`, least significant first.
pub open spec fn le_bytes(n: nat, k: nat) -> Seq<u8>
    decreases k,
{
    if k == 0 {
        Seq::empty()
    } else {
        seq![(n % 256) as u8] + le_bytes(n / 256, (k - 1) as nat)
    }
}

/// The `k` low bytes of `n` in a byte order: most significant first when
/// `big`, least significant first otherwise.
pub open spec fn ordered_bytes(n: nat, k: nat, big: bool) -> Seq<u8> {
    if big {
        le_bytes(n, k).reverse()
    } else {
        le_bytes(n, k)
    }
}

/// `u32::to_ne_bytes`: the four bytes of `n` in the machine's byte order,
/// which is little- or big-endian.
#[verifier::external_body]
fn u32_ne_bytes(n: u32) -> (r: [u8; 4])
    ensures
        r@ == ordered_bytes(n as nat, 4, false) || r@ == ordered_bytes(n as nat, 4, true),
{
    n.to_ne_bytes()
}

/// Whether the machine writes integers most significant byte first: the
/// first of the native bytes of 1 is 0 exactly then.
fn machine_big_endian() -> bool {
    let probe = u32_ne_bytes(1);
    probe[0] == 0
}

/// A text as `Hash` feeds it: its UTF-8 bytes, then the byte `0xff`.
pub open spec fn hashed_text(s: Seq<char>) -> Seq<u8> {
    vstd::utf8::encode_utf8(s).push(0xffu8)
}

/// The bytes the run hash digests, as the derived `Hash` of the run number,
/// the model, the context's run hash and the bench identifier feeds them:
/// the run number's 4 bytes and the run hash's 8 bytes in the machine's byte
/// order (`big` when most significant first), each text's UTF-8 bytes then
/// `0xff`.
pub open spec fn run_hash_input(
    run_number: u32,
    model: Seq<char>,
    run_hash: u64,
    bench: Seq<char>,
    big: bool,
) -> Seq<u8> {
    ordered_bytes(run_number as nat, 4, big) + hashed_text(model) + ordered_bytes(
        run_hash as nat,
        8,
        big,
    ) + hashed_text(bench)
}

/// The run hash of a payload on a machine of byte order `big`: the XXH3
/// digest, seeded with 1337, of its run number, model, context run hash and
/// bench.
pub open spec fn run_hash_of(p: RunPayload, big: bool) -> RunHash {
    RunHash(
        xxh3_64_with_seed(
            RUN_HASH_SEED,
            run_hash_input(p.ctx.run_number, p.ctx.model@, p.ctx.run_hash.0, p.bench.text(), big),
        ),
    )
}

/// Appends bytes.
fn push_bytes(out: &mut Vec<u8>, bytes: &[u8])
    ensures
        final(out)@ == old(out)@ + bytes@,
{
    let ghost start = old(out)@;
    let mut i: usize = 0;
    while i < bytes.len()
        invariant
            i <= bytes@.len(),
            out@ == start + bytes@.take(i as int),
        decreases bytes.len() - i,
    {
        out.push(bytes[i]);
        assert(bytes@.take(i as int + 1) =~= bytes@.take(i as int).push(bytes@[i as int]));
        i += 1;
    }
    assert(bytes@.take(bytes@.len() as int) =~= bytes@);
}

/// The `k` low bytes of `n`, least significant first.
fn le_bytes_of(n: u64, k: usize) -> (r: Vec<u8>)
    ensures
        r@ == le_bytes(n as nat, k as nat),
{
    let mut out: Vec<u8> = Vec::new();
    let mut x: u64 = n;
    let mut i: usize = 0;
    while i < k
        invariant
            i <= k,
            le_bytes(n as nat, k as nat) == out@ + le_bytes(x as nat, (k - i) as nat),
        decreases k - i,
    {
        let b: u8 = (x % 256) as u8;
        let ghost before = out@;
        let ghost rest = le_bytes((x / 256) as nat, (k - i - 1) as nat);
        assert(le_bytes(x as nat, (k - i) as nat) == seq![b] + rest);
        out.push(b);
        assert(before + (seq![b] + rest) =~= out@ + rest);
        x = x / 256;
        i += 1;
    }
    assert(out@ + le_bytes(x as nat, 0) =~= out@);
    out
}

/// Appends the `k` low bytes of `n` in byte order `big`.
fn push_ordered_bytes(out: &mut Vec<u8>, n: u64, k: usize, big: bool)
    ensures
        final(out)@ == old(out)@ + ordered_bytes(n as nat, k as nat, big),
{
    let le = le_bytes_of(n, k);
    if big {
        let ghost start = old(out)@;
        let mut i: usize = le.len();
        while i > 0
            invariant
                i <= le@.len(),
                out@ == start + le@.reverse().take(le@.len() - i),
            decreases i,
        {
            i -= 1;
            out.push(le[i]);
            assert(le@.reverse().take(le@.len() - i) =~= le@.reverse().take(le@.len() - i - 1).push(
                le@[i as int],
            ));
        }
        assert(le@.reverse().take(le@.len() as int) =~= le@.reverse());
    } else {
        push_bytes(out, le.as_slice());
    }
}

/// Appends a text as `Hash` feeds it: its UTF-8 bytes, then `0xff`.
fn push_hashed_text(out: &mut Vec<u8>, s: &str)
    ensures
        final(out)@ == old(out)@ + hashed_text(s@),
{
    let ghost start = old(out)@;
    let bytes = s.as_bytes();
    push_bytes(out, bytes);
    out.push(0xffu8);
    assert(start + bytes@.push(0xffu8) =~= (start + bytes@).push(0xffu8));
}

impl RunPayload {
    /// The run hash of this payload on a machine of byte order
    /// `big_endian`.
    pub fn run_hash_in(&self, big_endian: bool) -> (r: RunHash)
        ensures
            r == run_hash_of(*self, big_endian),
    {
        let mut input: Vec<u8> = Vec::new();
        push_ordered_bytes(&mut input, self.ctx.run_number as u64, 4, big_endian);
        push_hashed_text(&mut input, self.ctx.model.0.as_str());
        push_ordered_bytes(&mut input, self.ctx.run_hash.0, 8, big_endian);
        push_hashed_text(&mut input, self.bench.as_str());
        assert(input@ =~= run_hash_input(
            self.ctx.run_number,
            self.ctx.model@,
            self.ctx.run_hash.0,
            self.bench.text(),
            big_endian,
        ));
        RunHash(xxh3_digest(RUN_HASH_SEED, input.as_slice()))
    }

    /// The hash of this model + run + bench combination, used to recognise
    /// runs that are already done. It is not a hash of the payload. Its
    /// integers are hashed in the machine's byte order, as `Hash` feeds them.
    pub fn get_run_hash(&self) -> (r: RunHash)
        ensures
            exists|big: bool| r == #[trigger] run_hash_of(*self, big),
    {
        let big = machine_big_endian();
        self.run_hash_in(big)
    }
}

/// `done` holds `h`.
pub open spec fn is_done(done: Seq<RunHash>, h: RunHash) -> bool {
    exists|k: int| 0 <= k < done.len() && done[k] == h
}

/// The payloads whose hash (`hs[i]` for `ps[i]`) is not among `done`, in
/// order.
pub open spec fn pending(ps: Seq<RunPayload>, hs: Seq<RunHash>, done: Seq<RunHash>) -> Seq<
    RunPayload,
>
    decreases ps.len(),
{
    if ps.len() == 0 {
        Seq::empty()
    } else {
        let rest = pending(ps.drop_last(), hs, done);
        if is_done(done, hs[ps.len() - 1]) {
            rest
        } else {
            rest.push(ps.last())
        }
    }
}

/// The runs of `ps` whose run hash, in byte order `big`, is not among
/// `done`, in order.
pub open spec fn runs_not_done(ps: Seq<RunPayload>, big: bool, done: Seq<RunHash>) -> Seq<RunPayload>
    decreases ps.len(),
{
    if ps.len() == 0 {
        Seq::empty()
    } else {
        let rest = runs_not_done(ps.drop_last(), big, done);
        if is_done(done, run_hash_of(ps.last(), big)) {
            rest
        } else {
            rest.push(ps.last())
        }
    }
}

proof fn lemma_runs_not_done_pending(ps: Seq<RunPayload>, hs: Seq<RunHash>, big: bool, done: Seq<RunHash>)
    requires
        hs.len() >= ps.len(),
        forall|k: int| 0 <= k < ps.len() ==> (#[trigger] hs[k]) == run_hash_of(ps[k], big),
    ensures
        pending(ps, hs, done) == runs_not_done(ps, big, done),
    decreases ps.len(),
{
    if ps.len() > 0 {
        lemma_runs_not_done_pending(ps.drop_last(), hs, big, done);
        assert(hs[ps.len() - 1] == run_hash_of(ps.last(), big));
    }
}

proof fn lemma_runs_not_done_left(ps: Seq<RunPayload>, big: bool, done: Seq<RunHash>)
    ensures
        forall|k: int|
            0 <= k < runs_not_done(ps, big, done).len() ==> !is_done(
                done,
                run_hash_of(#[trigger] runs_not_done(ps, big, done)[k], big),
            ),
    decreases ps.len(),
{
    if ps.len() > 0 {
        lemma_runs_not_done_left(ps.drop_last(), big, done);
        let rest = runs_not_done(ps.drop_last(), big, done);
        assert forall|k: int| 0 <= k < runs_not_done(ps, big, done).len() implies !is_done(
            done,
            run_hash_of(#[trigger] runs_not_done(ps, big, done)[k], big),
        ) by {
            if k < rest.len() {
                assert(runs_not_done(ps, big, done)[k] == rest[k]);
            }
        }
    }
}

proof fn lemma_runs_not_done_keeps(ps: Seq<RunPayload>, big: bool, done: Seq<RunHash>)
    requires
        forall|k: int| 0 <= k < ps.len() ==> !is_done(done, run_hash_of(#[trigger] ps[k], big)),
    ensures
        runs_not_done(ps, big, done) == ps,
    decreases ps.len(),
{
    if ps.len() > 0 {
        assert forall|k: int| 0 <= k < ps.drop_last().len() implies !is_done(
            done,
            run_hash_of(#[trigger] ps.drop_last()[k], big),
        ) by {
            assert(ps.drop_last()[k] == ps[k]);
        }
        lemma_runs_not_done_keeps(ps.drop_last(), big, done);
        assert(!is_done(done, run_hash_of(ps[ps.len() - 1], big)));
        assert(ps.drop_last().push(ps.last()) =~= ps);
    }
}

/// Removing the runs already done is idempotent: on one machine, removing
/// them again with the same results removes nothing more.
pub proof fn lemma_filter_runs_idempotent(ps: Seq<RunPayload>, big: bool, done: Seq<RunHash>)
    ensures
        runs_not_done(runs_not_done(ps, big, done), big, done) == runs_not_done(ps, big, done),
{
    lemma_runs_not_done_left(ps, big, done);
    lemma_runs_not_done_keeps(runs_not_done(ps, big, done), big, done);
}

/// Whether `h` is among `done`.
fn contains_hash(done: &[RunHash], h: RunHash) -> (r: bool)
    ensures
        r == is_done(done@, h),
{
    let mut i: usize = 0;
    while i < done.len()
        invariant
            i <= done@.len(),
            forall|k: int| 0 <= k < i ==> done@[k] != h,
        decreases done.len() - i,
    {
        if done[i].0 == h.0 {
            return true;
        }
        i += 1;
    }
    false
}

/// The payloads not yet done: `payloads[i]` has hash `hashes[i]` and is kept
/// when that hash is not among `done`.
pub fn retain_pending(payloads: Vec<RunPayload>, hashes: &[RunHash], done: &[RunHash]) -> (r: Vec<
    RunPayload,
>)
    requires
        hashes@.len() == payloads@.len(),
    ensures
        r@ == pending(payloads@, hashes@, done@),
{
    let ghost all = payloads@;
    let mut rest = payloads;
    let mut rev: Vec<RunPayload> = Vec::new();
    // Take payloads off the back, keeping the pending ones, then restore order.
    while rest.len() > 0
        invariant
            rest@.len() <= all.len(),
            rest@ =~= all.take(rest@.len() as int),
            hashes@.len() == all.len(),
            pending(all, hashes@, done@) == pending(rest@, hashes@, done@) + rev@.reverse(),
        decreases rest.len(),
    {
        let ghost before = rest@;
        let p = rest.pop().unwrap();
        let i = rest.len();
        assert(before.drop_last() =~= rest@);
        assert(all.take(i as int) =~= all.take(i as int + 1).drop_last());
        assert(before.last() == p);
        let ghost rv = rev@;
        if !contains_hash(done, hashes[i]) {
            rev.push(p);
            assert(rev@.reverse() =~= seq![p] + rv.reverse());
            assert(pending(before, hashes@, done@) == pending(rest@, hashes@, done@).push(p));
            assert(pending(rest@, hashes@, done@).push(p) + rv.reverse() =~= pending(
                rest@,
                hashes@,
                done@,
            ) + rev@.reverse());
        } else {
            assert(pending(before, hashes@, done@) == pending(rest@, hashes@, done@));
        }
    }
    assert(pending(rest@, hashes@, done@) =~= Seq::<RunPayload>::empty());
    let mut out: Vec<RunPayload> = Vec::new();
    let ghost target = rev@.reverse();
    while rev.len() > 0
        invariant
            target == out@ + rev@.reverse(),
        decreases rev.len(),
    {
        let ghost rv = rev@;
        let p = rev.pop().unwrap();
        assert(rv.reverse() =~= seq![p] + rev@.reverse());
        out.push(p);
    }
    assert(out@ =~= target);
    out
}

/// The payloads of model `m`, in order.
pub open spec fn with_model(ps: Seq<RunPayload>, m: Seq<char>) -> Seq<RunPayload>
    decreases ps.len(),
{
    if ps.len() == 0 {
        Seq::empty()
    } else {
        let rest = with_model(ps.drop_last(), m);
        if ps.last().ctx.model@ == m {
            rest.push(ps.last())
        } else {
            rest
        }
    }
}

proof fn lemma_with_model_absent(ps: Seq<RunPayload>, m: Seq<char>)
    requires
        forall|k: int| 0 <= k < ps.len() ==> (#[trigger] ps[k]).ctx.model@ != m,
    ensures
        with_model(ps, m) == Seq::<RunPayload>::empty(),
    decreases ps.len(),
{
    if ps.len() > 0 {
        lemma_with_model_absent(ps.drop_last(), m);
    }
}

/// The keys of a per-model split.
pub open spec fn split_keys(groups: Seq<(ModelId, Vec<RunPayload>)>) -> Seq<Seq<char>> {
    groups.map_values(|g: (ModelId, Vec<RunPayload>)| g.0@)
}

/// The runs of a session, not yet started.
pub struct PromptPayloadBatch {
    payloads: Vec<RunPayload>,
}

impl PromptPayloadBatch {
    /// The pending runs, in order.
    pub closed spec fn payloads(&self) -> Seq<RunPayload> {
        self.payloads@
    }

    /// Every run of `benches` for every model of `models`, `n_runs` times
    /// each (run numbers `0..n_runs`), with an unset run hash.
    pub fn new(models: &SelectedModels, benches: &[BenchId], n_runs: u32) -> (r: PromptPayloadBatch)
        ensures
            r.payloads().map_values(|p: RunPayload| payload_view(p)) == batch_plan(
                models@,
                benches@,
                n_runs as nat,
            ),
            forall|i: int| 0 <= i < r.payloads().len() ==> (#[trigger] r.payloads()[i]).ctx.run_hash
                == RunHash(0),
    {
        let ms = models.iter();
        let mut payloads: Vec<RunPayload> = Vec::new();
        let mut m: usize = 0;
        while m < ms.len()
            invariant
                ms@ == models@,
                m <= ms@.len(),
                payloads@.map_values(|p: RunPayload| payload_view(p)) == batch_plan(
                    ms@.take(m as int),
                    benches@,
                    n_runs as nat,
                ),
                forall|i: int| 0 <= i < payloads@.len() ==> (#[trigger] payloads@[i]).ctx.run_hash
                    == RunHash(0),
            decreases ms.len() - m,
        {
            assert(ms@.take(m as int + 1).drop_last() =~= ms@.take(m as int));
            let ghost before_model = payloads@.map_values(|p: RunPayload| payload_view(p));
            let mut b: usize = 0;
            while b < benches.len()
                invariant
                    m < ms@.len(),
                    b <= benches@.len(),
                    payloads@.map_values(|p: RunPayload| payload_view(p)) == before_model
                        + model_runs(ms@[m as int], benches@.take(b as int), n_runs as nat),
                    forall|i: int| 0 <= i < payloads@.len() ==> (#[trigger] payloads@[i]).ctx.run_hash
                        == RunHash(0),
                decreases benches.len() - b,
            {
                assert(benches@.take(b as int + 1).drop_last() =~= benches@.take(b as int));
                let ghost before_bench = payloads@.map_values(|p: RunPayload| payload_view(p));
                let mut run: u32 = 0;
                while run < n_runs
                    invariant
                        m < ms@.len(),
                        b < benches@.len(),
                        run <= n_runs,
                        payloads@.map_values(|p: RunPayload| payload_view(p)) == before_bench
                            + runs_of(ms@[m as int], benches@[b as int], run as nat),
                        forall|i: int|
                            0 <= i < payloads@.len() ==> (#[trigger] payloads@[i]).ctx.run_hash
                                == RunHash(0),
                    decreases n_runs - run,
                {
                    let ghost prev = payloads@.map_values(|p: RunPayload| payload_view(p));
                    payloads.push(
                        RunPayload {
                            ctx: BenchCtx {
                                run_number: run,
                                model: ms[m].clone(),
                                run_hash: RunHash(0),
                            },
                            bench: benches[b].duplicate(),
                        },
                    );
                    assert(payloads@.map_values(|p: RunPayload| payload_view(p)) =~= prev.push(
                        (ms@[m as int]@, benches@[b as int].text(), run),
                    ));
                    run += 1;
                }
                b += 1;
            }
            assert(benches@.take(benches@.len() as int) =~= benches@);
            m += 1;
        }
        assert(ms@.take(ms@.len() as int) =~= ms@);
        PromptPayloadBatch { payloads }
    }

    /// The pending runs, in order.
    pub fn iter(&self) -> (r: &[RunPayload])
        ensures
            r@ == self.payloads(),
    {
        self.payloads.as_slice()
    }

    /// Removes the runs already done: those whose run hash, on a machine of
    /// byte order `big_endian`, is among `results`; the others stay in order.
    pub fn filter_runs_in(&mut self, results: &[RunHash], big_endian: bool)
        ensures
            final(self).payloads() == runs_not_done(old(self).payloads(), big_endian, results@),
    {
        let ghost ps0 = self.payloads();
        let mut hashes: Vec<RunHash> = Vec::new();
        let mut i: usize = 0;
        while i < self.payloads.len()
            invariant
                i <= self.payloads@.len(),
                self.payloads() == ps0,
                hashes@.len() == i,
                forall|k: int| 0 <= k < i ==> (#[trigger] hashes@[k]) == run_hash_of(ps0[k], big_endian),
            decreases self.payloads.len() - i,
        {
            hashes.push(self.payloads[i].run_hash_in(big_endian));
            i += 1;
        }
        let mut ps: Vec<RunPayload> = Vec::new();
        std::mem::swap(&mut ps, &mut self.payloads);
        self.payloads = retain_pending(ps, hashes.as_slice(), results);
        proof {
            lemma_runs_not_done_pending(ps0, hashes@, big_endian, results@);
        }
    }

    /// Removes the runs already done: those whose run hash is among
    /// `results`. The hashes are taken in the machine's byte order, the same
    /// for every run.
    pub fn filter_old_runs(&mut self, results: &[RunHash])
        ensures
            exists|big: bool|
                final(self).payloads() == #[trigger] runs_not_done(old(self).payloads(), big, results@),
    {
        let big = machine_big_endian();
        self.filter_runs_in(results, big);
    }

    /// Splits the runs per model, so that each model gets its own queue:
    /// one entry per model, in order of first appearance, holding that
    /// model's runs in their order.
    pub fn split_by_models(self) -> (r: Vec<(ModelId, Vec<RunPayload>)>)
        ensures
            forall|g: int|
                0 <= g < r@.len() ==> (#[trigger] r@[g]).1@ == with_model(
                    self.payloads(),
                    r@[g].0@,
                ),
            forall|a: int, b: int| 0 <= a < b < r@.len() ==> r@[a].0@ != r@[b].0@,
            forall|k: int|
                0 <= k < self.payloads().len() ==> split_keys(r@).contains(
                    (#[trigger] self.payloads()[k]).ctx.model@,
                ),
            forall|g: int| 0 <= g < r@.len() ==> (#[trigger] r@[g]).1@.len() > 0,
    {
        let ghost all = self.payloads@;
        let mut rest = self.payloads;
        let mut rev: Vec<RunPayload> = Vec::new();
        while rest.len() > 0
            invariant
                all == rest@ + rev@.reverse(),
            decreases rest.len(),
        {
            let ghost before = rest@;
            let ghost rv = rev@;
            let p = rest.pop().unwrap();
            rev.push(p);
            assert(rev@.reverse() =~= seq![p] + rv.reverse());
            assert(before =~= rest@.push(p));
        }
        assert(all =~= rev@.reverse());
        let mut groups: Vec<(ModelId, Vec<RunPayload>)> = Vec::new();
        let ghost mut done: Seq<RunPayload> = Seq::empty();
        while rev.len() > 0
            invariant
                all == done + rev@.reverse(),
                forall|g: int|
                    0 <= g < groups@.len() ==> (#[trigger] groups@[g]).1@ == with_model(
                        done,
                        groups@[g].0@,
                    ),
                forall|a: int, b: int| 0 <= a < b < groups@.len() ==> groups@[a].0@ != groups@[b].0@,
                forall|k: int|
                    0 <= k < done.len() ==> split_keys(groups@).contains(
                        (#[trigger] done[k]).ctx.model@,
                    ),
                forall|g: int| 0 <= g < groups@.len() ==> (#[trigger] groups@[g]).1@.len() > 0,
            decreases rev.len(),
        {
            let ghost rv = rev@;
            let p = rev.pop().unwrap();
            assert(rv.reverse() =~= seq![p] + rev@.reverse());
            let ghost next = done.push(p);
            assert(next.drop_last() =~= done);
            let mut g: usize = 0;
            let mut found = false;
            while g < groups.len()
                invariant_except_break
                    !found,
                invariant
                    g <= groups@.len(),
                    forall|a: int| 0 <= a < g ==> (#[trigger] groups@[a]).0@ != p.ctx.model@,
                ensures
                    g <= groups@.len(),
                    forall|a: int| 0 <= a < g ==> (#[trigger] groups@[a]).0@ != p.ctx.model@,
                    found ==> g < groups@.len() && groups@[g as int].0@ == p.ctx.model@,
                    !found ==> g == groups@.len(),
                decreases groups.len() - g,
            {
                if str_eq(groups[g].0.as_str(), p.ctx.model.as_str()) {
                    found = true;
                    break;
                }
                g += 1;
            }
            let ghost old_groups = groups@;
            let ghost pg = p;
            if found {
                groups[g].1.push(p);
                proof {
                    assert forall|a: int| 0 <= a < groups@.len() implies (#[trigger] groups@[a]).1@
                        == with_model(next, groups@[a].0@) by {
                        if a == g {
                            assert(groups@[a].1@ =~= old_groups[a].1@.push(pg));
                        } else {
                            assert(groups@[a] == old_groups[a]);
                            assert(old_groups[a].0@ != pg.ctx.model@);
                        }
                    }
                    assert(split_keys(groups@) =~= split_keys(old_groups));
                    assert(split_keys(groups@)[g as int] == pg.ctx.model@);
                }
            } else {
                proof {
                    assert forall|k: int| 0 <= k < done.len() implies (#[trigger] done[k]).ctx.model@
                        != p.ctx.model@ by {
                        if done[k].ctx.model@ == p.ctx.model@ {
                            let gi = choose|gi: int|
                                0 <= gi < old_groups.len() && split_keys(old_groups)[gi]
                                    == done[k].ctx.model@;
                            assert(old_groups[gi].0@ == p.ctx.model@);
                        }
                    }
                    lemma_with_model_absent(done, p.ctx.model@);
                }
                let key = p.ctx.model.clone();
                let mut q: Vec<RunPayload> = Vec::new();
                q.push(p);
                groups.push((key, q));
                proof {
                    assert(split_keys(groups@) =~= split_keys(old_groups).push(pg.ctx.model@));
                    assert(split_keys(groups@)[old_groups.len() as int] == pg.ctx.model@);
                    assert forall|k: int| 0 <= k < done.len() implies split_keys(groups@).contains(
                        (#[trigger] done[k]).ctx.model@,
                    ) by {
                        let gi = choose|gi: int|
                            0 <= gi < split_keys(old_groups).len() && split_keys(old_groups)[gi]
                                == done[k].ctx.model@;
                        assert(split_keys(groups@)[gi] == done[k].ctx.model@);
                    }
                }
            }
            proof {
                done = next;
            }
        }
        groups
    }

    /// Number of pending runs.
    pub fn len(&self) -> (r: usize)
        ensures
            r == self.payloads().len(),
    {
        self.payloads.len()
    }
}

} // verus!
