use crate::batch::{attach_vectors, error_count, filter_errors, ok_values, BatchError, Embedded};
use crate::chunk::{
    chunk_item, fits, lemma_chunks_bounded_and_ordered, selected, split_outcome, Chunk,
    ChunkRange,
};
use crate::chunk::metadata_view;
use crate::dedup::{filter_cached, is_cached, unseen_pred, DedupCache};
use crate::item::Loaded;
use crate::language::Language;
use crate::route::{code_pred, markdown_pred, merge, split_by_kind};
use crate::store::{RecordKey, RecordValue, StoredRecord, VectorStore};
use vstd::prelude::*;

verus! {

/// Counts of what became of the items of one ingestion run.
#[derive(Clone, Copy, Debug, PartialEq, Eq, Structural)]
pub struct RunStats {
    /// Items the source yielded.
    pub items: usize,
    /// Items dropped because the cache already knew their fingerprint.
    pub duplicates: usize,
    /// Items that could not be read.
    pub load_errors: usize,
    /// Items whose chunking failed.
    pub chunk_errors: usize,
    /// Items that were chunked, possibly into no chunk at all.
    pub chunked: usize,
}

/// The chunks that an ingestion run must enrich, embed and store, and what
/// became of its items.
pub struct IngestPlan {
    pub chunks: Vec<Chunk>,
    pub stats: RunStats,
}

/// A chunk as a value: path, fingerprint, offset and text.
pub type ChunkView = (Seq<char>, u64, nat, Seq<char>);

pub open spec fn chunk_view(c: Chunk) -> ChunkView {
    (c.path@, c.fingerprint, c.offset as nat, c.text@)
}

/// The chunks one loaded item yields: none for a load error or a failed
/// split, else the selected pieces of its branch.
pub open spec fn item_chunks(x: Loaded, lang: Language, range: ChunkRange) -> Seq<ChunkView> {
    match x {
        Ok(item) => match split_outcome(item, lang, range) {
            Ok(p) => selected(p, range).map_values(
                |c: (nat, Seq<char>)| (item.path@, item.fingerprint, c.0, c.1),
            ),
            Err(_) => Seq::empty(),
        },
        Err(_) => Seq::empty(),
    }
}

/// The chunks of a stream of items, in the order of the stream.
pub open spec fn stream_chunks(xs: Seq<Loaded>, lang: Language, range: ChunkRange) -> Seq<ChunkView>
    decreases xs.len(),
{
    if xs.len() == 0 {
        Seq::empty()
    } else {
        stream_chunks(xs.drop_last(), lang, range) + item_chunks(xs.last(), lang, range)
    }
}

/// Load errors, failed splits and chunked items among a stream of items.
pub open spec fn tally(xs: Seq<Loaded>, lang: Language, range: ChunkRange) -> (nat, nat, nat)
    decreases xs.len(),
{
    if xs.len() == 0 {
        (0, 0, 0)
    } else {
        let t = tally(xs.drop_last(), lang, range);
        match xs.last() {
            Err(_) => (t.0 + 1, t.1, t.2),
            Ok(item) => if split_outcome(item, lang, range) is Ok {
                (t.0, t.1, t.2 + 1)
            } else {
                (t.0, t.1 + 1, t.2)
            },
        }
    }
}

/// The stream that reaches chunking: the items the cache does not know,
/// the code branch first, then the markdown branch.
pub open spec fn routed(items: Seq<Loaded>, seen: Set<u64>) -> Seq<Loaded> {
    let admitted = items.filter(unseen_pred(seen));
    admitted.filter(code_pred()) + admitted.filter(markdown_pred())
}

/// The first stages of an ingestion run, up to the point where chunks leave
/// for enrichment: items the cache knows are dropped, the rest are routed to
/// the markdown or the code branch and chunked there, and the branches are
/// merged, code first. Chunks come only from items the cache did not know,
/// and every chunk's length lies within `range`.
pub fn plan_ingest(items: Vec<Loaded>, cache: &DedupCache, lang: Language, range: ChunkRange) -> (r:
    IngestPlan)
    requires
        range.wf(),
    ensures
        r.chunks@.map_values(|c: Chunk| chunk_view(c)) == stream_chunks(
            routed(items@, cache@),
            lang,
            range,
        ),
        forall|k: int| 0 <= k < r.chunks@.len() ==> (#[trigger] r.chunks@[k]).metadata@.len() == 0,
        forall|k: int|
            0 <= k < r.chunks@.len() ==> !cache@.contains(#[trigger] r.chunks@[k].fingerprint)
                && fits(range, r.chunks@[k].text@),
        r.stats.items == items@.len(),
        r.stats.duplicates == items@.len() - items@.filter(unseen_pred(cache@)).len(),
        (r.stats.load_errors as nat, r.stats.chunk_errors as nat, r.stats.chunked as nat) == tally(
            routed(items@, cache@),
            lang,
            range,
        ),
        r.stats.load_errors + r.stats.chunk_errors + r.stats.chunked == items@.filter(
            unseen_pred(cache@),
        ).len(),
{
    broadcast use vstd::seq_lib::group_filter_ensures;

    let n = items.len();
    let ghost all = items@;
    let admitted = filter_cached(items, cache);
    let ghost adm = admitted@;
    let (markdown, code) = split_by_kind(admitted);
    let ghost md = markdown@;
    let ghost cd = code@;
    let mut rest = merge(code, markdown);
    let ghost stream = rest@;
    proof {
        broadcast use vstd::seq_lib::group_to_multiset_ensures;

        crate::route::lemma_split_merge_complete(adm);
        assert(adm.len() <= n);
        assert(rest@ == cd + md);
        assert(stream == routed(all, cache@));
        assert((md + cd).to_multiset().len() == adm.to_multiset().len());
        assert((md + cd).len() == adm.len());
        assert forall|j: int| 0 <= j < rest@.len() implies !is_cached(cache@, #[trigger] rest@[j]) by {
            let x = rest@[j];
            if j < cd.len() {
                assert(cd[j] == x);
                assert(adm.filter(crate::route::code_pred()).contains(x));
                adm.lemma_filter_contains_rev(crate::route::code_pred(), x);
            } else {
                assert(md[j - cd.len()] == x);
                assert(adm.filter(crate::route::markdown_pred()).contains(x));
                adm.lemma_filter_contains_rev(crate::route::markdown_pred(), x);
            }
            let i = choose|i: int| 0 <= i < adm.len() && adm[i] == x;
            all.lemma_filter_pred(unseen_pred(cache@), i);
        }
        assert(stream.subrange(0, 0) =~= Seq::<Loaded>::empty());
    }
    let total = rest.len();
    let mut chunks: Vec<Chunk> = Vec::new();
    let mut load_errors: usize = 0;
    let mut chunk_errors: usize = 0;
    let mut chunked: usize = 0;
    proof {
        assert(chunks@.map_values(|c: Chunk| chunk_view(c)) =~= Seq::<ChunkView>::empty());
    }
    while rest.len() > 0
        invariant
            range.wf(),
            total == adm.len(),
            total == stream.len(),
            rest@.len() <= total,
            rest@ == stream.subrange(total - rest@.len(), total as int),
            load_errors + chunk_errors + chunked + rest@.len() == total,
            (load_errors as nat, chunk_errors as nat, chunked as nat) == tally(
                stream.subrange(0, total - rest@.len()),
                lang,
                range,
            ),
            chunks@.map_values(|c: Chunk| chunk_view(c)) == stream_chunks(
                stream.subrange(0, total - rest@.len()),
                lang,
                range,
            ),
            forall|k: int| 0 <= k < chunks@.len() ==> (#[trigger] chunks@[k]).metadata@.len() == 0,
            forall|j: int| 0 <= j < rest@.len() ==> !is_cached(cache@, #[trigger] rest@[j]),
            forall|k: int| 0 <= k < chunks@.len() ==> !cache@.contains(#[trigger] chunks@[k].fingerprint),
            forall|k: int| 0 <= k < chunks@.len() ==> fits(range, (#[trigger] chunks@[k]).text@),
        decreases rest.len(),
    {
        let ghost before = rest@;
        let ghost k0 = total - rest@.len();
        let x = rest.remove(0);
        proof {
            assert(x == before[0]);
            assert(x == stream[k0]);
            assert(rest@ =~= stream.subrange(k0 + 1, total as int));
            assert(stream.subrange(0, k0 + 1).drop_last() =~= stream.subrange(0, k0));
            assert(stream.subrange(0, k0 + 1).last() == x);
            assert forall|j: int| 0 <= j < rest@.len() implies !is_cached(cache@, #[trigger] rest@[j]) by {
                assert(rest@[j] == before[j + 1]);
            }
        }
        let ghost old_views = chunks@.map_values(|c: Chunk| chunk_view(c));
        match x {
            Err(_) => {
                load_errors += 1;
                proof {
                    assert(item_chunks(x, lang, range) =~= Seq::<ChunkView>::empty());
                    assert(old_views + item_chunks(x, lang, range) =~= old_views);
                }
            },
            Ok(item) => match chunk_item(&item, lang, range) {
                Err(_) => {
                    chunk_errors += 1;
                    proof {
                        assert(item_chunks(x, lang, range) =~= Seq::<ChunkView>::empty());
                        assert(old_views + item_chunks(x, lang, range) =~= old_views);
                    }
                },
                Ok(mut cs) => {
                    let ghost p = split_outcome(item, lang, range)->Ok_0;
                    proof {
                        lemma_chunks_bounded_and_ordered(p, range);
                        assert forall|k: int| 0 <= k < cs@.len() implies !cache@.contains(
                            (#[trigger] cs@[k]).fingerprint,
                        ) && fits(range, cs@[k].text@) && cs@[k].metadata@.len() == 0 by {
                            assert(cs@[k].text@ == selected(p, range)[k].1);
                        }
                        assert(cs@.map_values(|c: Chunk| chunk_view(c)) =~= item_chunks(x, lang, range));
                    }
                    let ghost old_chunks = chunks@;
                    let ghost added = cs@;
                    chunks.append(&mut cs);
                    proof {
                        assert forall|k: int| 0 <= k < chunks@.len() implies !cache@.contains(
                            #[trigger] chunks@[k].fingerprint,
                        ) && fits(range, chunks@[k].text@) && chunks@[k].metadata@.len() == 0 by {
                            if k >= old_chunks.len() {
                                let m = k - old_chunks.len();
                                assert(chunks@[k] == added[m]);
                                assert(!cache@.contains(added[m].fingerprint) && fits(range, added[m].text@)
                                    && added[m].metadata@.len() == 0);
                            } else {
                                assert(chunks@[k] == old_chunks[k]);
                                assert(!cache@.contains(old_chunks[k].fingerprint));
                                assert(fits(range, old_chunks[k].text@));
                                assert(old_chunks[k].metadata@.len() == 0);
                            }
                        }
                        assert(chunks@.map_values(|c: Chunk| chunk_view(c)) =~= old_views
                            + added.map_values(|c: Chunk| chunk_view(c)));
                    }
                    chunked += 1;
                },
            },
        }
    }
    proof {
        assert(stream.subrange(0, total as int) =~= stream);
    }
    let stats = RunStats {
        items: n,
        duplicates: n - total,
        load_errors,
        chunk_errors,
        chunked,
    };
    IngestPlan { chunks, stats }
}

/// The store's contents after writing each embedded chunk in order.
pub open spec fn stored_after<V>(
    m: Map<RecordKey, RecordValue<V>>,
    written: Seq<Embedded<Chunk, V>>,
) -> Map<RecordKey, RecordValue<V>>
    decreases written.len(),
{
    if written.len() == 0 {
        m
    } else {
        let e = written.last();
        stored_after(m, written.drop_last()).insert(
            (e.unit.path@, e.unit.offset),
            (e.unit.text@, e.unit.fingerprint, e.vector, metadata_view(e.unit.metadata@)),
        )
    }
}

/// The fingerprints of the items whose chunks were written.
pub open spec fn fingerprints_of<V>(written: Seq<Embedded<Chunk, V>>) -> Set<u64> {
    Set::new(|f: u64| exists|i: int| 0 <= i < written.len() && written[i].unit.fingerprint == f)
}

/// The last stages of an ingestion run: failed chunks are counted and go no
/// further; every embedded chunk is written to the store, keyed by its path
/// and offset; and the fingerprint of each item that had a chunk written is
/// recorded in the cache. Returns the number of failed chunks.
pub fn store_embedded<V>(
    store: &mut VectorStore<V>,
    cache: &mut DedupCache,
    outcomes: Vec<Result<Embedded<Chunk, V>, BatchError>>,
) -> (r: usize)
    requires
        old(store).wf(),
        old(cache).wf(),
    ensures
        final(store).wf(),
        final(cache).wf(),
        r == error_count(outcomes@),
        final(store)@ == stored_after(old(store)@, ok_values(outcomes@)),
        final(cache)@ == old(cache)@.union(fingerprints_of(ok_values(outcomes@))),
{
    let (oks, errors) = filter_errors(outcomes);
    let ghost all = oks@;
    let ghost m0 = store@;
    let ghost c0 = cache@;
    let mut rest = oks;
    proof {
        assert(all.subrange(0, 0) =~= Seq::<Embedded<Chunk, V>>::empty());
        assert(c0.union(fingerprints_of(all.subrange(0, 0))) =~= c0);
    }
    while rest.len() > 0
        invariant
            store.wf(),
            cache.wf(),
            rest.len() <= all.len(),
            rest@ == all.subrange(all.len() - rest.len(), all.len() as int),
            store@ == stored_after(m0, all.subrange(0, all.len() - rest.len())),
            cache@ == c0.union(fingerprints_of(all.subrange(0, all.len() - rest.len()))),
        decreases rest.len(),
    {
        let ghost k = all.len() - rest.len();
        let e = rest.remove(0);
        proof {
            assert(rest@ =~= all.subrange(k + 1, all.len() as int));
            assert(all.subrange(0, k + 1).drop_last() =~= all.subrange(0, k));
            assert(all.subrange(0, k + 1).last() == e);
        }
        let fingerprint = e.unit.fingerprint;
        let rec = StoredRecord {
            path: e.unit.path,
            offset: e.unit.offset,
            fingerprint,
            text: e.unit.text,
            vector: e.vector,
            metadata: e.unit.metadata,
        };
        store.upsert(rec);
        cache.insert(fingerprint);
        proof {
            let pre = all.subrange(0, k);
            let post = all.subrange(0, k + 1);
            assert(fingerprints_of(post) =~= fingerprints_of(pre).insert(fingerprint)) by {
                assert forall|f: u64| fingerprints_of(post).contains(f) implies fingerprints_of(
                    pre,
                ).insert(fingerprint).contains(f) by {
                    let i = choose|i: int| 0 <= i < post.len() && post[i].unit.fingerprint == f;
                    if i < k {
                        assert(pre[i] == post[i]);
                    }
                }
                assert forall|f: u64| fingerprints_of(pre).insert(fingerprint).contains(f) implies fingerprints_of(
                    post,
                ).contains(f) by {
                    if f == fingerprint {
                        assert(post[k].unit.fingerprint == f);
                    } else {
                        let i = choose|i: int| 0 <= i < pre.len() && pre[i].unit.fingerprint == f;
                        assert(post[i] == pre[i]);
                    }
                }
            }
            assert(cache@ =~= c0.union(fingerprints_of(post)));
        }
    }
    proof {
        assert(all.subrange(0, all.len() as int) =~= all);
    }
    errors
}

/// Writing chunks none of which comes from the item with fingerprint `f`
/// creates no record for that item: every record carrying `f` afterwards was
/// in the store, unchanged, before.
pub proof fn lemma_unwritten_item_gets_no_record<V>(
    m: Map<RecordKey, RecordValue<V>>,
    written: Seq<Embedded<Chunk, V>>,
    f: u64,
)
    requires
        forall|i: int| 0 <= i < written.len() ==> (#[trigger] written[i]).unit.fingerprint != f,
    ensures
        forall|k: RecordKey|
            #[trigger] stored_after(m, written).contains_key(k) && stored_after(m, written)[k].1 == f
                ==> m.contains_key(k) && m[k] == stored_after(m, written)[k],
    decreases written.len(),
{
    if written.len() > 0 {
        let init = written.drop_last();
        assert forall|i: int| 0 <= i < init.len() implies (#[trigger] init[i]).unit.fingerprint != f by {
            assert(init[i] == written[i]);
        }
        lemma_unwritten_item_gets_no_record(m, init, f);
        let e = written.last();
        assert(e == written[written.len() - 1]);
        let ek = (e.unit.path@, e.unit.offset);
        let prev = stored_after(m, init);
        let after = stored_after(m, written);
        assert(after == prev.insert(ek, (e.unit.text@, e.unit.fingerprint, e.vector, metadata_view(e.unit.metadata@))));
        assert forall|k: RecordKey| #[trigger] after.contains_key(k) && after[k].1 == f implies m.contains_key(k)
            && m[k] == after[k] by {
            if k != ek {
                assert(prev.contains_key(k) && prev[k] == after[k]);
            }
        }
    }
}

/// A batch paired with the vectors of its embedding call, in order.
pub open spec fn paired<V>(batch: Seq<Chunk>, vectors: Seq<V>) -> Seq<Embedded<Chunk, V>> {
    Seq::new(batch.len(), |i: int| Embedded { unit: batch[i], vector: vectors[i] })
}

proof fn lemma_all_ok<T, E>(s: Seq<Result<T, E>>, values: Seq<T>)
    requires
        s.len() == values.len(),
        forall|i: int| 0 <= i < s.len() ==> s[i] == Ok::<T, E>(#[trigger] values[i]),
    ensures
        ok_values(s) == values,
        error_count(s) == 0,
    decreases s.len(),
{
    if s.len() > 0 {
        lemma_all_ok(s.drop_last(), values.drop_last());
        assert(s.last() == Ok::<T, E>(values.last()));
        assert(values.drop_last().push(values.last()) =~= values);
    }
}

proof fn lemma_all_err<T, E>(s: Seq<Result<T, E>>)
    requires
        forall|i: int| 0 <= i < s.len() ==> (#[trigger] s[i]) is Err,
    ensures
        ok_values(s) == Seq::<T>::empty(),
        error_count(s) == s.len(),
    decreases s.len(),
{
    if s.len() > 0 {
        lemma_all_err(s.drop_last());
        assert(s.last() is Err);
    }
}

/// One batch through embedding and storage: the result of the batch's one
/// embedding call is paired with its chunks in order. When the call returned
/// one vector per chunk, every chunk is written with its own vector and its
/// item's fingerprint is recorded; otherwise the whole batch fails, nothing
/// is written, and the batch's size is returned as the failure count. Either
/// way a record carrying a fingerprint that no chunk of the batch carries is
/// left as it was.
pub fn store_batch<V, E>(
    store: &mut VectorStore<V>,
    cache: &mut DedupCache,
    batch: Vec<Chunk>,
    result: Result<Vec<V>, E>,
) -> (r: usize)
    requires
        old(store).wf(),
        old(cache).wf(),
    ensures
        final(store).wf(),
        final(cache).wf(),
        match result {
            Ok(vs) => if vs@.len() == batch@.len() {
                &&& r == 0
                &&& final(store)@ == stored_after(old(store)@, paired(batch@, vs@))
                &&& final(cache)@ == old(cache)@.union(fingerprints_of(paired(batch@, vs@)))
            } else {
                r == batch@.len() && final(store)@ == old(store)@ && final(cache)@ == old(cache)@
            },
            Err(_) => r == batch@.len() && final(store)@ == old(store)@ && final(cache)@
                == old(cache)@,
        },
        forall|k: RecordKey|
            #[trigger] final(store)@.contains_key(k) && (forall|i: int|
                0 <= i < batch@.len() ==> (#[trigger] batch@[i]).fingerprint != final(store)@[k].1)
                ==> old(store)@.contains_key(k) && old(store)@[k] == final(store)@[k],
{
    let ghost b = batch@;
    let ghost m0 = store@;
    let ghost c0 = cache@;
    let ghost res = result;
    let outcomes = attach_vectors(batch, result);
    let ghost outs = outcomes@;
    let ghost written: Seq<Embedded<Chunk, V>> = Seq::empty();
    proof {
        match res {
            Ok(vs) => {
                if vs@.len() == b.len() {
                    let pv = paired(b, vs@);
                    assert forall|i: int| 0 <= i < outs.len() implies outs[i] == Ok::<
                        Embedded<Chunk, V>,
                        BatchError,
                    >(#[trigger] pv[i]) by {
                        assert(outs[i] is Ok);
                    }
                    lemma_all_ok(outs, pv);
                    written = pv;
                } else {
                    lemma_all_err(outs);
                }
            },
            Err(_) => {
                lemma_all_err(outs);
            },
        }
        assert(ok_values(outs) == written);
        assert(forall|i: int| 0 <= i < written.len() ==> (#[trigger] written[i]).unit == b[i]);
        assert(written.len() == 0 || written.len() == b.len());
    }
    let r = store_embedded(store, cache, outcomes);
    proof {
        if written.len() == 0 {
            assert(stored_after(m0, written) == m0);
            assert(fingerprints_of(written) =~= Set::<u64>::empty());
            assert(c0.union(Set::<u64>::empty()) =~= c0);
        }
        assert forall|k: RecordKey|
            #[trigger] store@.contains_key(k) && (forall|i: int|
                0 <= i < b.len() ==> (#[trigger] b[i]).fingerprint != store@[k].1) implies m0.contains_key(k)
            && m0[k] == store@[k] by {
            let f = store@[k].1;
            assert forall|i: int| 0 <= i < written.len() implies (#[trigger] written[i]).unit.fingerprint != f by {
                assert(written[i].unit == b[i]);
            }
            lemma_unwritten_item_gets_no_record(m0, written, f);
        }
    }
    r
}

/// `w` writes a record under identifier `k`.
pub open spec fn writes_key<V>(w: Seq<Embedded<Chunk, V>>, k: RecordKey) -> bool {
    exists|i: int| 0 <= i < w.len() && (w[i].unit.path@, w[i].unit.offset) == k
}

proof fn lemma_stored_after_keys<V>(
    m1: Map<RecordKey, RecordValue<V>>,
    m2: Map<RecordKey, RecordValue<V>>,
    w: Seq<Embedded<Chunk, V>>,
)
    ensures
        forall|k: RecordKey|
            #[trigger] writes_key(w, k) ==> stored_after(m1, w).contains_key(k) && stored_after(
                m2,
                w,
            ).contains_key(k) && stored_after(m1, w)[k] == stored_after(m2, w)[k],
        forall|k: RecordKey|
            !#[trigger] writes_key(w, k) ==> (stored_after(m1, w).contains_key(k)
                == m1.contains_key(k)) && (m1.contains_key(k) ==> stored_after(m1, w)[k] == m1[k]),
    decreases w.len(),
{
    if w.len() > 0 {
        let init = w.drop_last();
        lemma_stored_after_keys(m1, m2, init);
        let e = w.last();
        let ek = (e.unit.path@, e.unit.offset);
        assert forall|k: RecordKey| #[trigger] writes_key(w, k) implies stored_after(m1, w).contains_key(k)
            && stored_after(m2, w).contains_key(k) && stored_after(m1, w)[k] == stored_after(m2, w)[k] by {
            if k != ek {
                let i = choose|i: int| 0 <= i < w.len() && (w[i].unit.path@, w[i].unit.offset) == k;
                assert(i < init.len());
                assert(init[i] == w[i]);
                assert(writes_key(init, k));
            }
        }
        assert forall|k: RecordKey| !#[trigger] writes_key(w, k) implies (stored_after(m1, w).contains_key(k)
            == m1.contains_key(k)) && (m1.contains_key(k) ==> stored_after(m1, w)[k] == m1[k]) by {
            assert(k != ek) by {
                assert((w[w.len() - 1].unit.path@, w[w.len() - 1].unit.offset) == ek);
            }
            if writes_key(init, k) {
                let i = choose|i: int| 0 <= i < init.len() && (init[i].unit.path@, init[i].unit.offset) == k;
                assert(w[i] == init[i]);
            }
        }
    }
}

/// Running the same writes again changes nothing: after a run has stored
/// its embedded chunks, storing the same chunks again leaves the very same
/// records, none duplicated, each with its latest content.
pub proof fn lemma_rerun_is_idempotent<V>(
    m: Map<RecordKey, RecordValue<V>>,
    w: Seq<Embedded<Chunk, V>>,
)
    ensures
        stored_after(stored_after(m, w), w) == stored_after(m, w),
        stored_after(stored_after(m, w), w).dom().len() == stored_after(m, w).dom().len(),
{
    let x = stored_after(m, w);
    lemma_stored_after_keys(x, m, w);
    lemma_stored_after_keys(m, m, w);
    let y = stored_after(x, w);
    assert forall|k: RecordKey| #[trigger] y.contains_key(k) <==> x.contains_key(k) by {
        if writes_key(w, k) {
            assert(y[k] == x[k]);
        } else {
            assert(!writes_key(w, k));
        }
    }
    assert forall|k: RecordKey| #[trigger] y.contains_key(k) implies y[k] == x[k] by {
        if writes_key(w, k) {
            assert(y[k] == x[k]);
        } else {
            assert(!writes_key(w, k));
        }
    }
    assert(y =~= x);
}

} // verus!
