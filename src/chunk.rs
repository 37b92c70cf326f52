use crate::item::SourceItem;
use crate::language::Language;
use crate::route::{is_markdown_file, is_markdown_path};
use crate::text::{join, join_with};
use swiftide::integrations::treesitter::{CodeSplitter, SupportedLanguages};
use text_splitter::{ChunkConfig, MarkdownSplitter, TextSplitter};
use vstd::prelude::*;
use vstd::string::*;
use vstd::utf8::encode_utf8;

verus! {

/// The sizes, in characters, that a chunk may have: `min..=max`.
#[derive(Clone, Copy, Debug, PartialEq, Eq, Structural)]
pub struct ChunkRange {
    pub min: usize,
    pub max: usize,
}

impl ChunkRange {
    /// The range is not empty and admits chunks of at least one character.
    pub open spec fn wf(&self) -> bool {
        self.min <= self.max && 0 < self.max
    }

    /// The range `min..=max`, when it is not empty and its maximum is not 0.
    pub fn new(min: usize, max: usize) -> (r: Option<ChunkRange>)
        ensures
            r is Some <==> min <= max && 0 < max,
            r matches Some(c) ==> c.min == min && c.max == max && c.wf(),
    {
        if min <= max && 0 < max {
            Some(ChunkRange { min, max })
        } else {
            None
        }
    }
}

/// A fragment of a source file: the file's path and fingerprint, where the
/// fragment starts (in characters, within the splitter's pieces laid end to
/// end), its text, the metadata enrichment attached to it, one value per key,
/// and the byte position in the file at which its text was found.
pub struct Chunk {
    pub path: String,
    pub fingerprint: u64,
    pub offset: usize,
    pub text: String,
    pub metadata: Vec<(String, String)>,
    pub source_offset: Option<usize>,
}

/// Metadata entries as values.
pub open spec fn metadata_view(m: Seq<(String, String)>) -> Seq<(Seq<char>, Seq<char>)> {
    m.map_values(|e: (String, String)| (e.0@, e.1@))
}

/// No metadata key is held twice.
pub open spec fn unique_keys(m: Seq<(Seq<char>, Seq<char>)>) -> bool {
    forall|i: int, j: int| 0 <= i < j < m.len() ==> #[trigger] m[i].0 != #[trigger] m[j].0
}

/// The metadata after setting `key` to `value`: the entry with that key takes
/// the new value where there is one; otherwise the entry is added at the end.
pub open spec fn with_entry(
    m: Seq<(Seq<char>, Seq<char>)>,
    key: Seq<char>,
    value: Seq<char>,
) -> Seq<(Seq<char>, Seq<char>)> {
    if exists|i: int| 0 <= i < m.len() && m[i].0 == key {
        m.update(choose|i: int| 0 <= i < m.len() && m[i].0 == key, (key, value))
    } else {
        m.push((key, value))
    }
}

/// One metadata entry as a line of text: `key: value`.
pub open spec fn metadata_line(e: (Seq<char>, Seq<char>)) -> Seq<char> {
    e.0 + seq![':', ' '] + e.1
}

/// What is embedded for a chunk: its metadata lines joined by newlines, a
/// newline, then the chunk's text.
pub open spec fn embeddable(m: Seq<(Seq<char>, Seq<char>)>, text: Seq<char>) -> Seq<char> {
    join_with(m.map_values(|e: (Seq<char>, Seq<char>)| metadata_line(e)), seq!['\n']) + seq!['\n']
        + text
}

impl Chunk {
    /// Sets one metadata entry; the chunk's text, path, fingerprint and offset
    /// are left as they are.
    pub fn set_metadata(&mut self, key: String, value: String)
        requires
            unique_keys(metadata_view(old(self).metadata@)),
        ensures
            unique_keys(metadata_view(final(self).metadata@)),
            metadata_view(final(self).metadata@) == with_entry(
                metadata_view(old(self).metadata@),
                key@,
                value@,
            ),
            final(self).text == old(self).text,
            final(self).path == old(self).path,
            final(self).fingerprint == old(self).fingerprint,
            final(self).offset == old(self).offset,
            final(self).source_offset == old(self).source_offset,
    {
        let ghost m = metadata_view(self.metadata@);
        let ghost kv = key@;
        let ghost vv = value@;
        let mut i: usize = 0;
        while i < self.metadata.len()
            invariant
                i <= self.metadata@.len(),
                m == metadata_view(self.metadata@),
                m == metadata_view(old(self).metadata@),
                unique_keys(m),
                key@ == kv,
                value@ == vv,
                self.text == old(self).text,
                self.path == old(self).path,
                self.fingerprint == old(self).fingerprint,
                self.offset == old(self).offset,
                self.source_offset == old(self).source_offset,
                forall|j: int| 0 <= j < i ==> m[j].0 != kv,
            decreases self.metadata.len() - i,
        {
            proof {
                assert(m[i as int] == (self.metadata@[i as int].0@, self.metadata@[i as int].1@));
            }
            if self.metadata[i].0 == key {
                proof {
                    assert(m[i as int].0 == kv);
                    let c = choose|j: int| 0 <= j < m.len() && m[j].0 == kv;
                    assert(c == i) by {
                        if c != i {
                            if c < i {
                                assert(m[c].0 != kv);
                            } else {
                                assert(m[i as int].0 != m[c].0);
                            }
                        }
                    }
                }
                self.metadata.set(i, (key, value));
                proof {
                    assert(metadata_view(self.metadata@) =~= m.update(i as int, (kv, vv)));
                }
                return;
            }
            i += 1;
        }
        self.metadata.push((key, value));
        proof {
            assert(metadata_view(self.metadata@) =~= m.push((kv, vv)));
        }
    }

    /// The text sent to the embedding model for this chunk.
    pub fn embeddable_text(&self) -> (r: String)
        ensures
            r@ == embeddable(metadata_view(self.metadata@), self.text@),
    {
        let ghost m = metadata_view(self.metadata@);
        let mut lines: Vec<String> = Vec::new();
        let mut i: usize = 0;
        let colon = ": ";
        let newline = "\n";
        proof {
            reveal_strlit(": ");
            reveal_strlit("\n");
            assert(colon@ =~= seq![':', ' ']);
            assert(newline@ =~= seq!['\n']);
        }
        while i < self.metadata.len()
            invariant
                i <= self.metadata@.len(),
                m == metadata_view(self.metadata@),
                colon@ == seq![':', ' '],
                lines.deep_view() == m.subrange(0, i as int).map_values(
                    |e: (Seq<char>, Seq<char>)| metadata_line(e),
                ),
            decreases self.metadata.len() - i,
        {
            let ghost before = lines.deep_view();
            let line = self.metadata[i].0.clone().concat(colon).concat(self.metadata[i].1.as_str());
            lines.push(line);
            proof {
                assert(lines.deep_view() =~= before.push(line@));
                assert(m.subrange(0, i + 1).map_values(|e: (Seq<char>, Seq<char>)| metadata_line(e))
                    =~= before.push(metadata_line(m[i as int])));
            }
            i += 1;
        }
        proof {
            assert(m.subrange(0, i as int) =~= m);
        }
        join(&lines, newline).concat(newline).concat(self.text.as_str())
    }
}

/// Why a file yielded no chunks.
#[derive(Clone, Copy, Debug, PartialEq, Eq, Structural)]
pub enum ChunkError {
    /// The pieces are longer, together, than a `usize` can count.
    TooLarge,
}

/// The number of characters in all `pieces` together.
pub open spec fn total_len(pieces: Seq<Seq<char>>) -> nat
    decreases pieces.len(),
{
    if pieces.len() == 0 {
        0
    } else {
        total_len(pieces.drop_last()) + pieces.last().len()
    }
}

/// A text whose length lies within the range.
pub open spec fn fits(range: ChunkRange, s: Seq<char>) -> bool {
    range.min <= s.len() <= range.max
}

pub open spec fn fits_pred(range: ChunkRange) -> spec_fn(Seq<char>) -> bool {
    |s: Seq<char>| fits(range, s)
}

/// The chunks kept from `pieces`: each piece whose length fits the range, in
/// order, with the offset at which it starts.
pub open spec fn selected(pieces: Seq<Seq<char>>, range: ChunkRange) -> Seq<(nat, Seq<char>)>
    decreases pieces.len(),
{
    if pieces.len() == 0 {
        Seq::empty()
    } else {
        let before = selected(pieces.drop_last(), range);
        if fits(range, pieces.last()) {
            before.push((total_len(pieces.drop_last()), pieces.last()))
        } else {
            before
        }
    }
}

/// The chunks of a file are the selected pieces, each carrying the file's
/// path and fingerprint.
pub open spec fn chunks_match(
    r: Seq<Chunk>,
    path: Seq<char>,
    fingerprint: u64,
    pieces: Seq<Seq<char>>,
    range: ChunkRange,
) -> bool {
    &&& r.len() == selected(pieces, range).len()
    &&& forall|i: int|
        0 <= i < r.len() ==> {
            &&& r[i].path@ == path
            &&& r[i].fingerprint == fingerprint
            &&& r[i].metadata@.len() == 0
            &&& r[i].offset == selected(pieces, range)[i].0
            &&& r[i].text@ == selected(pieces, range)[i].1
        }
}

proof fn lemma_total_len_prefix(s: Seq<Seq<char>>, k: int)
    requires
        0 <= k <= s.len(),
    ensures
        total_len(s.subrange(0, k)) <= total_len(s),
    decreases s.len(),
{
    if k < s.len() {
        assert(s.subrange(0, k) =~= s.drop_last().subrange(0, k));
        lemma_total_len_prefix(s.drop_last(), k);
    } else {
        assert(s.subrange(0, k) =~= s);
    }
}

/// Keeps the pieces whose length lies within `range`, in order, as chunks of
/// the file at `path` with the given fingerprint; a piece's offset counts the characters of every piece
/// before it, kept or not.
pub fn select_chunks(path: &String, fingerprint: u64, pieces: Vec<String>, range: ChunkRange) -> (r: Vec<Chunk>)
    requires
        total_len(pieces.deep_view()) <= usize::MAX,
    ensures
        chunks_match(r@, path@, fingerprint, pieces.deep_view(), range),
{
    let ghost all = pieces.deep_view();
    let mut rest = pieces;
    let mut chunks: Vec<Chunk> = Vec::new();
    let mut offset: usize = 0;
    proof {
        assert(all.subrange(0, 0) =~= Seq::<Seq<char>>::empty());
    }
    while rest.len() > 0
        invariant
            rest.len() <= all.len(),
            total_len(all) <= usize::MAX,
            rest.deep_view() == all.subrange(all.len() - rest.len(), all.len() as int),
            offset == total_len(all.subrange(0, all.len() - rest.len())),
            chunks_match(chunks@, path@, fingerprint, all.subrange(0, all.len() - rest.len()), range),
        decreases rest.len(),
    {
        let ghost k = all.len() - rest.len();
        let ghost prefix = all.subrange(0, k);
        let ghost rest_before = rest.deep_view();
        let piece = rest.remove(0);
        proof {
            assert(piece@ == rest_before[0]);
            assert(all.subrange(0, k + 1).drop_last() =~= prefix);
            assert(all.subrange(0, k + 1).last() == piece@);
            lemma_total_len_prefix(all, k + 1);
            assert(rest.deep_view() =~= all.subrange(k + 1, all.len() as int)) by {
                assert forall|i: int| 0 <= i < rest.len() implies rest.deep_view()[i] == all[k
                    + 1 + i] by {
                    assert(rest_before[i + 1] == all.subrange(k, all.len() as int)[i + 1]);
                }
            }
        }
        let len = piece.as_str().unicode_len();
        let next = offset + len;
        if range.min <= len && len <= range.max {
            let c = Chunk {
                path: path.clone(),
                fingerprint,
                offset,
                text: piece,
                metadata: Vec::new(),
                source_offset: None,
            };
            chunks.push(c);
        }
        offset = next;
    }
    proof {
        assert(all.subrange(0, all.len() as int) =~= all);
    }
    chunks
}

/// The total length of `pieces`, when a `usize` can hold it.
pub fn total_chars(pieces: &Vec<String>) -> (r: Option<usize>)
    ensures
        r is Some <==> total_len(pieces.deep_view()) <= usize::MAX,
        r matches Some(n) ==> n == total_len(pieces.deep_view()),
{
    let ghost all = pieces.deep_view();
    let mut n: usize = 0;
    let mut i: usize = 0;
    proof {
        assert(all.subrange(0, 0) =~= Seq::<Seq<char>>::empty());
    }
    while i < pieces.len()
        invariant
            i <= pieces.len(),
            all == pieces.deep_view(),
            n == total_len(all.subrange(0, i as int)),
        decreases pieces.len() - i,
    {
        proof {
            assert(all.subrange(0, i + 1).drop_last() =~= all.subrange(0, i as int));
            lemma_total_len_prefix(all, i + 1);
        }
        let len = pieces[i].as_str().unicode_len();
        match n.checked_add(len) {
            Some(m) => n = m,
            None => {
                proof {
                    lemma_total_len_prefix(all, i + 1);
                }
                return None;
            },
        }
        i += 1;
    }
    proof {
        assert(all.subrange(0, i as int) =~= all);
    }
    Some(n)
}

/// `piece` sits in `src` at byte `o`.
pub open spec fn occurs_at(src: Seq<u8>, o: int, piece: Seq<u8>) -> bool {
    0 <= o && o + piece.len() <= src.len() && src.subrange(o, o + piece.len()) == piece
}

/// `o` is the first position at or after `c` where `piece` sits in `src`.
pub open spec fn first_from(src: Seq<u8>, c: int, piece: Seq<u8>, o: int) -> bool {
    &&& c <= o
    &&& occurs_at(src, o, piece)
    &&& forall|o2: int| c <= o2 < o ==> !occurs_at(src, o2, piece)
}

/// The bytes of each chunk's text.
pub open spec fn chunk_bytes(chunks: Seq<Chunk>) -> Seq<Seq<u8>> {
    chunks.map_values(|c: Chunk| encode_utf8(c.text@))
}

/// Where each piece is found in `src`, looking for each one from the end of
/// the last piece found before it, and where the search for the next piece
/// starts.
pub open spec fn spans(src: Seq<u8>, pieces: Seq<Seq<u8>>) -> (Seq<Option<usize>>, int)
    decreases pieces.len(),
{
    if pieces.len() == 0 {
        (Seq::empty(), 0)
    } else {
        let before = spans(src, pieces.drop_last());
        let p = pieces.last();
        if exists|o: int| first_from(src, before.1, p, o) {
            let o = choose|o: int| first_from(src, before.1, p, o);
            (before.0.push(Some(o as usize)), o + p.len())
        } else {
            (before.0.push(None), before.1)
        }
    }
}

proof fn lemma_first_from_unique(src: Seq<u8>, c: int, piece: Seq<u8>, a: int, b: int)
    requires
        first_from(src, c, piece, a),
        first_from(src, c, piece, b),
    ensures
        a == b,
{
}

/// Finds the first position at or after `c` where `piece` sits in `src`.
fn find_from(src: &[u8], piece: &[u8], c: usize) -> (r: Option<usize>)
    ensures
        match r {
            Some(o) => first_from(src@, c as int, piece@, o as int),
            None => forall|o: int| c <= o ==> !occurs_at(src@, o, piece@),
        },
{
    let n = src.len();
    if piece.len() > n || c > n - piece.len() {
        return None;
    }
    let last = n - piece.len();
    let mut o = c;
    while o <= last
        invariant
            c <= o,
            n == src@.len(),
            last == src@.len() - piece@.len(),
            forall|o2: int| c <= o2 < o ==> !occurs_at(src@, o2, piece@),
        decreases last + 1 - o,
    {
        let mut j: usize = 0;
        let mut same = true;
        while j < piece.len()
            invariant
                j <= piece@.len(),
                o <= last,
                n == src@.len(),
                last == src@.len() - piece@.len(),
                same ==> forall|t: int| 0 <= t < j ==> src@[o + t] == piece@[t],
                !same ==> !occurs_at(src@, o as int, piece@),
            decreases piece.len() - j,
        {
            if src[o + j] != piece[j] {
                proof {
                    assert(src@.subrange(o as int, o + piece@.len())[j as int] == src@[o + j]);
                }
                same = false;
            }
            j += 1;
        }
        if same {
            proof {
                assert(src@.subrange(o as int, o + piece@.len()) =~= piece@);
            }
            return Some(o);
        }
        if o == last {
            return None;
        }
        o += 1;
    }
    None
}

/// The chunks are those given, each with `source_offset` set to where its
/// text is found in `src` by `spans`.
pub open spec fn located_as(r: Seq<Chunk>, chunks: Seq<Chunk>, src: Seq<u8>) -> bool {
    &&& r.len() == chunks.len()
    &&& forall|i: int|
        0 <= i < r.len() ==> {
            &&& (#[trigger] r[i]).path == chunks[i].path
            &&& r[i].fingerprint == chunks[i].fingerprint
            &&& r[i].offset == chunks[i].offset
            &&& r[i].text == chunks[i].text
            &&& r[i].metadata == chunks[i].metadata
            &&& r[i].source_offset == spans(src, chunk_bytes(chunks)).0[i]
        }
}

/// Finds each chunk's text in the file `src`, in order: each is looked for
/// from the end of the last one found, and its byte position is recorded;
/// a text that is not found there gets none.
pub fn locate(chunks: Vec<Chunk>, src: &str) -> (r: Vec<Chunk>)
    ensures
        located_as(r@, chunks@, src.spec_bytes()),
{
    let ghost all = chunks@;
    let ghost sb = src.spec_bytes();
    let bytes = src.as_bytes();
    let n = bytes.len();
    let mut rest = chunks;
    let mut out: Vec<Chunk> = Vec::new();
    let mut cursor: usize = 0;
    proof {
        assert(chunk_bytes(all.subrange(0, 0)) =~= Seq::<Seq<u8>>::empty());
    }
    while rest.len() > 0
        invariant
            bytes@ == sb,
            n == sb.len(),
            rest.len() <= all.len(),
            rest@ == all.subrange(all.len() - rest.len(), all.len() as int),
            cursor <= sb.len(),
            cursor == spans(sb, chunk_bytes(all.subrange(0, all.len() - rest.len()))).1,
            located_as(out@, all.subrange(0, all.len() - rest.len()), sb),
        decreases rest.len(),
    {
        let ghost k = all.len() - rest.len();
        let ghost pre = all.subrange(0, k);
        let mut ch = rest.remove(0);
        let ghost orig = ch;
        proof {
            assert(rest@ =~= all.subrange(k + 1, all.len() as int));
            assert(ch == all[k]);
            assert(chunk_bytes(all.subrange(0, k + 1)).drop_last() =~= chunk_bytes(pre));
            assert(chunk_bytes(all.subrange(0, k + 1)).last() == encode_utf8(ch.text@));
        }
        let found = find_from(bytes, ch.text.as_str().as_bytes(), cursor);
        let ghost p = encode_utf8(ch.text@);
        let ghost before = spans(sb, chunk_bytes(pre));
        match found {
            Some(o) => {
                proof {
                    let w = choose|w: int| first_from(sb, before.1, p, w);
                    lemma_first_from_unique(sb, before.1, p, w, o as int);
                }
                cursor = o + ch.text.as_str().as_bytes().len();
            },
            None => {},
        }
        ch.source_offset = found;
        let ghost prev_out = out@;
        out.push(ch);
        proof {
            let now = spans(sb, chunk_bytes(all.subrange(0, k + 1)));
            lemma_spans_ordered(sb, chunk_bytes(pre));
            assert(before.0.len() == k);
            assert(now.0 == before.0.push(found));
            assert forall|i: int| 0 <= i < out@.len() implies {
                &&& (#[trigger] out@[i]).path == all.subrange(0, k + 1)[i].path
                &&& out@[i].fingerprint == all.subrange(0, k + 1)[i].fingerprint
                &&& out@[i].offset == all.subrange(0, k + 1)[i].offset
                &&& out@[i].text == all.subrange(0, k + 1)[i].text
                &&& out@[i].metadata == all.subrange(0, k + 1)[i].metadata
                &&& out@[i].source_offset == now.0[i]
            } by {
                if i < k {
                    assert(out@[i] == prev_out[i]);
                    assert(all.subrange(0, k + 1)[i] == pre[i]);
                    assert(now.0[i] == before.0[i]);
                } else {
                    assert(out@[i] == ch);
                    assert(all.subrange(0, k + 1)[i] == orig);
                }
            }
        }
    }
    proof {
        assert(all.subrange(0, all.len() as int) =~= all);
    }
    out
}

/// The chunks found in the file follow one another without overlap: each
/// found chunk ends before the next found one starts, and sits in the file
/// exactly where it was found.
pub proof fn lemma_spans_ordered(src: Seq<u8>, pieces: Seq<Seq<u8>>)
    requires
        src.len() <= usize::MAX,
    ensures
        spans(src, pieces).0.len() == pieces.len(),
        0 <= spans(src, pieces).1 <= src.len(),
        forall|i: int|
            0 <= i < pieces.len() && (#[trigger] spans(src, pieces).0[i]) is Some ==> occurs_at(
                src,
                spans(src, pieces).0[i]->Some_0 as int,
                pieces[i],
            ) && spans(src, pieces).0[i]->Some_0 + pieces[i].len() <= spans(src, pieces).1,
        forall|i: int, j: int|
            0 <= i < j < pieces.len() && (#[trigger] spans(src, pieces).0[i]) is Some && (
            #[trigger] spans(src, pieces).0[j]) is Some ==> spans(src, pieces).0[i]->Some_0
                + pieces[i].len() <= spans(src, pieces).0[j]->Some_0,
    decreases pieces.len(),
{
    if pieces.len() > 0 {
        let init = pieces.drop_last();
        lemma_spans_ordered(src, init);
        let before = spans(src, init);
        let p = pieces.last();
        if exists|o: int| first_from(src, before.1, p, o) {
            let o = choose|o: int| first_from(src, before.1, p, o);
            assert(o as usize as int == o);
        }
        let sp = spans(src, pieces);
        assert forall|i: int| 0 <= i < init.len() implies sp.0[i] == before.0[i] && pieces[i] == init[i] by {}
    }
}

/// The pieces that swiftide's tree-sitter `CodeSplitter` cuts from `text`,
/// for the language and the byte range `min..max`; `None` where the code does
/// not parse.
pub uninterp spec fn code_pieces(lang: Language, min: usize, max: usize, text: Seq<char>) -> Option<Seq<Seq<char>>>;

/// The pieces that text-splitter's `MarkdownSplitter` cuts from `text` for the
/// character range `min..=max`.
pub uninterp spec fn markdown_pieces(min: usize, max: usize, text: Seq<char>) -> Seq<Seq<char>>;

/// The pieces that text-splitter's plain `TextSplitter` cuts from `text` for
/// the character range `min..=max`.
pub uninterp spec fn text_pieces(min: usize, max: usize, text: Seq<char>) -> Seq<Seq<char>>;

/// Relies on swiftide's `CodeSplitter::split`, which parses the code with
/// tree-sitter and groups syntax nodes into pieces; it depends on its
/// arguments alone and fails on code that does not parse.
#[verifier::external_body]
fn split_code(lang: Language, min: usize, max: usize, text: &str) -> (r: Option<Vec<String>>)
    ensures
        match code_pieces(lang, min, max, text@) {
            Some(p) => r is Some && r->Some_0.deep_view() == p,
            None => r is None,
        },
{
    let lang = match lang {
        Language::Rust => SupportedLanguages::Rust,
        Language::Typescript => SupportedLanguages::Typescript,
        Language::Python => SupportedLanguages::Python,
        Language::Ruby => SupportedLanguages::Ruby,
        Language::Javascript => SupportedLanguages::Javascript,
        Language::Java => SupportedLanguages::Java,
    };
    let splitter = CodeSplitter::builder().try_language(lang).ok()?.chunk_size(min..max).build().ok()?;
    splitter.split(text).ok()
}

/// Relies on text-splitter's `MarkdownSplitter::chunks`, which cuts markdown
/// at its block structure into pieces of `min..=max` characters where it can;
/// the pieces depend on its arguments alone. The range must not be empty
/// (the capacity refuses it) and its maximum must not be 0 (the splitter's
/// size arithmetic underflows on text that trims to nothing).
#[verifier::external_body]
fn split_markdown(min: usize, max: usize, text: &str) -> (r: Vec<String>)
    requires
        min <= max,
        0 < max,
    ensures
        r.deep_view() == markdown_pieces(min, max, text@),
{
    let splitter = MarkdownSplitter::new(ChunkConfig::new(min..=max));
    splitter.chunks(text).map(String::from).collect()
}

/// Relies on text-splitter's `TextSplitter::chunks`, which cuts plain text at
/// line, sentence, word and character boundaries into pieces of `min..=max`
/// characters where it can; the pieces depend on its arguments alone. The
/// range must not be empty and its maximum must not be 0, as for markdown.
#[verifier::external_body]
fn split_text(min: usize, max: usize, text: &str) -> (r: Vec<String>)
    requires
        min <= max,
        0 < max,
    ensures
        r.deep_view() == text_pieces(min, max, text@),
{
    let splitter = TextSplitter::new(ChunkConfig::new(min..=max));
    splitter.chunks(text).map(String::from).collect()
}

/// The pieces a source file is cut into: its syntax-aware pieces, or, where
/// the code does not parse, its plain-text pieces.
pub open spec fn code_or_text_pieces(item: SourceItem, lang: Language, range: ChunkRange) -> Seq<
    Seq<char>,
> {
    match code_pieces(lang, range.min, range.max, item.content@) {
        Some(p) => p,
        None => text_pieces(range.min, range.max, item.content@),
    }
}

/// The pieces from which a source file's chunks are selected, or why there
/// are none.
pub open spec fn code_split_outcome(item: SourceItem, lang: Language, range: ChunkRange) -> Result<
    Seq<Seq<char>>,
    ChunkError,
> {
    let p = code_or_text_pieces(item, lang, range);
    if total_len(p) <= usize::MAX {
        Ok(p)
    } else {
        Err(ChunkError::TooLarge)
    }
}

/// The pieces from which a markdown file's chunks are selected, or why there
/// are none.
pub open spec fn markdown_split_outcome(item: SourceItem, range: ChunkRange) -> Result<
    Seq<Seq<char>>,
    ChunkError,
> {
    let p = markdown_pieces(range.min, range.max, item.content@);
    if total_len(p) <= usize::MAX {
        Ok(p)
    } else {
        Err(ChunkError::TooLarge)
    }
}

/// The pieces of a file on the branch that its path selects.
pub open spec fn split_outcome(item: SourceItem, lang: Language, range: ChunkRange) -> Result<
    Seq<Seq<char>>,
    ChunkError,
> {
    if is_markdown_path(item.path@) {
        markdown_split_outcome(item, range)
    } else {
        code_split_outcome(item, lang, range)
    }
}

/// The chunks of a file are those selected from the pieces of `outcome`, or
/// its error.
pub open spec fn chunked_as(
    r: Result<Vec<Chunk>, ChunkError>,
    item: SourceItem,
    outcome: Result<Seq<Seq<char>>, ChunkError>,
    range: ChunkRange,
) -> bool {
    match outcome {
        Ok(p) => r is Ok && chunks_match(r->Ok_0@, item.path@, item.fingerprint, p, range)
            && found_in(r->Ok_0@, item.content@),
        Err(e) => r == Err::<Vec<Chunk>, ChunkError>(e),
    }
}

/// Each chunk's `source_offset` is where its text is found in the file
/// `text`, looking for each chunk from the end of the last one found.
pub open spec fn found_in(r: Seq<Chunk>, text: Seq<char>) -> bool {
    forall|i: int|
        0 <= i < r.len() ==> (#[trigger] r[i]).source_offset == spans(
            encode_utf8(text),
            chunk_bytes(r),
        ).0[i]
}

/// The chunks kept from `pieces`, each found in the file's text.
fn select_and_locate(item: &SourceItem, pieces: Vec<String>, range: ChunkRange) -> (r: Vec<Chunk>)
    requires
        total_len(pieces.deep_view()) <= usize::MAX,
    ensures
        chunks_match(r@, item.path@, item.fingerprint, pieces.deep_view(), range),
        found_in(r@, item.content@),
{
    let ghost p = pieces.deep_view();
    let selected_chunks = select_chunks(&item.path, item.fingerprint, pieces, range);
    let ghost sel = selected_chunks@;
    let src = item.content.as_str();
    let r = locate(selected_chunks, src);
    proof {
        assert(chunk_bytes(r@) =~= chunk_bytes(sel));
        assert(src.spec_bytes() == encode_utf8(item.content@));
        assert forall|i: int| 0 <= i < r@.len() implies {
            &&& (#[trigger] r@[i]).path@ == item.path@
            &&& r@[i].fingerprint == item.fingerprint
            &&& r@[i].metadata@.len() == 0
            &&& r@[i].offset == selected(p, range)[i].0
            &&& r@[i].text@ == selected(p, range)[i].1
        } by {
            assert(r@[i].path == sel[i].path);
        }
    }
    r
}

/// Chunks a source file of the given language: its syntax-aware pieces, or
/// its plain-text pieces where the code does not parse, kept where their
/// length lies within `range`. A parse failure is not an error.
pub fn chunk_code(item: &SourceItem, lang: Language, range: ChunkRange) -> (r: Result<
    Vec<Chunk>,
    ChunkError,
>)
    requires
        range.wf(),
    ensures
        chunked_as(r, *item, code_split_outcome(*item, lang, range), range),
{
    let pieces = match split_code(lang, range.min, range.max, item.content.as_str()) {
        Some(pieces) => pieces,
        None => split_text(range.min, range.max, item.content.as_str()),
    };
    match total_chars(&pieces) {
        None => Err(ChunkError::TooLarge),
        Some(_) => Ok(select_and_locate(item, pieces, range)),
    }
}

/// Chunks a markdown file: its block-aware pieces, kept where their length
/// lies within `range`.
pub fn chunk_markdown(item: &SourceItem, range: ChunkRange) -> (r: Result<Vec<Chunk>, ChunkError>)
    requires
        range.wf(),
    ensures
        chunked_as(r, *item, markdown_split_outcome(*item, range), range),
{
    let pieces = split_markdown(range.min, range.max, item.content.as_str());
    match total_chars(&pieces) {
        None => Err(ChunkError::TooLarge),
        Some(_) => Ok(select_and_locate(item, pieces, range)),
    }
}

/// Chunks a file on the branch that its path selects: markdown and
/// extensionless files block-aware, the others as code of `lang`.
pub fn chunk_item(item: &SourceItem, lang: Language, range: ChunkRange) -> (r: Result<
    Vec<Chunk>,
    ChunkError,
>)
    requires
        range.wf(),
    ensures
        chunked_as(r, *item, split_outcome(*item, lang, range), range),
{
    if is_markdown_file(item.path.as_str()) {
        chunk_markdown(item, range)
    } else {
        chunk_code(item, lang, range)
    }
}

/// Every chunk kept from a list of pieces has a length within the range; the
/// chunks' texts are exactly the pieces that fit, in their order; and the
/// chunks' spans follow one another without overlap, each starting where the
/// pieces before it, kept or dropped, end.
pub proof fn lemma_chunks_bounded_and_ordered(pieces: Seq<Seq<char>>, range: ChunkRange)
    ensures
        forall|i: int|
            0 <= i < selected(pieces, range).len() ==> fits(range, #[trigger] selected(pieces, range)[i].1),
        selected(pieces, range).map_values(|c: (nat, Seq<char>)| c.1) == pieces.filter(fits_pred(range)),
        forall|i: int, j: int|
            0 <= i < j < selected(pieces, range).len() ==> #[trigger] selected(pieces, range)[i].0
                + selected(pieces, range)[i].1.len() <= #[trigger] selected(pieces, range)[j].0,
        forall|i: int|
            0 <= i < selected(pieces, range).len() ==> #[trigger] selected(pieces, range)[i].0
                + selected(pieces, range)[i].1.len() <= total_len(pieces),
    decreases pieces.len(),
{
    reveal(Seq::filter);
    if pieces.len() > 0 {
        let init = pieces.drop_last();
        lemma_chunks_bounded_and_ordered(init, range);
        let before = selected(init, range);
        assert(selected(pieces, range).map_values(|c: (nat, Seq<char>)| c.1) =~= (if fits(range, pieces.last()) {
            before.map_values(|c: (nat, Seq<char>)| c.1).push(pieces.last())
        } else {
            before.map_values(|c: (nat, Seq<char>)| c.1)
        }));
    } else {
        assert(selected(pieces, range).map_values(|c: (nat, Seq<char>)| c.1) =~= Seq::<Seq<char>>::empty());
    }
}

} // verus!
