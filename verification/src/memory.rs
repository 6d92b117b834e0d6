//! The project memory file: one entry per line, written as
//! `- [id:<id>] [tags:<a>,<b>] <text>`, with the tag list optional.
//! Entries are parsed from it, rendered into a prompt, and searched.
use vstd::prelude::*;
use crate::text::{
    all_ascii, ascii_lower, chars_eq, chars_of, contains_chars, count_matches, count_matches_exec,
    decimal, extend_all, extend_range, extend_str, find_sep, first_sep, has_substring,
    is_ascii_char, is_blank, join, lemma_lex_less_asymmetric, lemma_lex_less_irreflexive,
    lemma_lex_less_total, lemma_lex_less_transitive, lex_less, lex_less_exec, line_ranges, lines,
    lowercase, matches_at, push_decimal, split, split_ranges, string_from, string_of, to_lowercase,
    trim, trim_range, trim_start, trim_start_from, Sep,
};

verus! {

/// One remembered fact.
#[derive(Debug, Clone, PartialEq, Eq)]
pub struct MemoryEntry {
    pub id: String,
    pub tags: Vec<String>,
    pub text: String,
}

/// A `MemoryEntry` as plain sequences of characters.
pub struct EntryModel {
    pub id: Seq<char>,
    pub tags: Seq<Seq<char>>,
    pub text: Seq<char>,
}

/// The character sequences of a list of texts.
pub open spec fn views_of(v: Seq<String>) -> Seq<Seq<char>> {
    v.map_values(|s: String| s@)
}

impl View for MemoryEntry {
    type V = EntryModel;

    open spec fn view(&self) -> EntryModel {
        EntryModel { id: self.id@, tags: views_of(self.tags@), text: self.text@ }
    }
}

/// The models of a list of entries.
pub open spec fn entry_models(v: Seq<MemoryEntry>) -> Seq<EntryModel> {
    v.map_values(|e: MemoryEntry| e@)
}

/// Whether `s` begins with `p`.
pub open spec fn starts_with(s: Seq<char>, p: Seq<char>) -> bool {
    p.len() <= s.len() && s.take(p.len() as int) == p
}

/// The tags of a raw tag list: its comma-separated pieces, trimmed, with the
/// empty ones left out.
pub open spec fn tidy_tags(pieces: Seq<Seq<char>>) -> Seq<Seq<char>>
    decreases pieces.len(),
{
    if pieces.len() == 0 {
        seq![]
    } else {
        let t = trim(pieces.last());
        tidy_tags(pieces.drop_last()) + (if t.len() > 0 {
            seq![t]
        } else {
            seq![]
        })
    }
}

/// The text that opens an entry line.
pub open spec fn entry_prefix() -> Seq<char> {
    "- [id:"@
}

/// The text that opens a tag list.
pub open spec fn tags_prefix() -> Seq<char> {
    "[tags:"@
}

/// The tags and the untrimmed text that follow the id of an entry line:
/// a `[tags:...]` list where one opens `after`, else no tags.
/// `None` where a tag list is opened and never closed.
pub open spec fn split_tags_and_text(after: Seq<char>) -> Option<(Seq<Seq<char>>, Seq<char>)> {
    if starts_with(after, tags_prefix()) {
        let r = after.skip(tags_prefix().len() as int);
        let k = first_sep(r, Sep::Char(']'));
        if k < 0 {
            None
        } else {
            Some((tidy_tags(split(r.take(k), Sep::Char(','))), trim_start(r.skip(k + 1))))
        }
    } else {
        Some((seq![], after))
    }
}

/// The entry that a line of the memory file holds, if it holds one.
///
/// The trimmed line must begin with `- [id:`; the id runs to the first `]`;
/// after optional whitespace an optional `[tags:...]` list follows, then the
/// text. Id and text are trimmed and must not be empty.
pub open spec fn parse_entry(line: Seq<char>) -> Option<EntryModel> {
    let t = trim(line);
    if !starts_with(t, entry_prefix()) {
        None
    } else {
        let rest = t.skip(entry_prefix().len() as int);
        let k = first_sep(rest, Sep::Char(']'));
        if k < 0 {
            None
        } else {
            match split_tags_and_text(trim_start(rest.skip(k + 1))) {
                None => None,
                Some(tt) => {
                    let id = trim(rest.take(k));
                    let text = trim(tt.1);
                    if id.len() > 0 && text.len() > 0 {
                        Some(EntryModel { id, tags: tt.0, text })
                    } else {
                        None
                    }
                },
            }
        }
    }
}

/// The entries that a list of lines holds, in order.
pub open spec fn parse_lines(ls: Seq<Seq<char>>) -> Seq<EntryModel>
    decreases ls.len(),
{
    if ls.len() == 0 {
        seq![]
    } else {
        parse_lines(ls.drop_last()) + match parse_entry(ls.last()) {
            Some(e) => seq![e],
            None => seq![],
        }
    }
}

/// The entries of a memory file, one per line that holds one, in order.
pub open spec fn parse_entries(content: Seq<char>) -> Seq<EntryModel> {
    parse_lines(lines(content))
}

/// The tags of the comma-separated list `v[lo..hi]`.
fn tag_list(v: &Vec<char>, lo: usize, hi: usize) -> (r: Vec<String>)
    requires
        lo <= hi <= v@.len(),
    ensures
        views_of(r@) == tidy_tags(split(v@.subrange(lo as int, hi as int), Sep::Char(','))),
{
    let pieces = split_ranges(v, lo, hi, Sep::Char(','));
    let ghost ps = split(v@.subrange(lo as int, hi as int), Sep::Char(','));
    let mut out: Vec<String> = Vec::new();
    let mut i: usize = 0;
    while i < pieces.len()
        invariant
            i <= pieces@.len() == ps.len(),
            lo <= hi <= v@.len(),
            forall|k: int|
                0 <= k < pieces@.len() ==> {
                    &&& lo <= (#[trigger] pieces@[k]).0 <= pieces@[k].1 <= hi
                    &&& v@.subrange(pieces@[k].0 as int, pieces@[k].1 as int) == ps[k]
                },
            views_of(out@) == tidy_tags(ps.take(i as int)),
        decreases pieces@.len() - i,
    {
        let (a, b) = pieces[i];
        let (ta, tb) = trim_range(v, a, b);
        proof {
            assert(ps.take(i + 1).drop_last() =~= ps.take(i as int));
            assert(ps.take(i + 1).last() == ps[i as int]);
        }
        let ghost prev = out@;
        if ta < tb {
            let s = string_from(v, ta, tb);
            out.push(s);
            proof {
                assert(views_of(out@) =~= views_of(prev).push(s@));
            }
        }
        proof {
            assert(views_of(out@) =~= tidy_tags(ps.take(i + 1)));
        }
        i = i + 1;
    }
    proof {
        assert(ps.take(pieces@.len() as int) =~= ps);
    }
    out
}

/// The model of an entry that may be absent.
pub open spec fn opt_model(r: Option<MemoryEntry>) -> Option<EntryModel> {
    match r {
        Some(e) => Some(e@),
        None => None,
    }
}

/// Parses the line `v[lo..hi]`.
fn parse_line_range(v: &Vec<char>, lo: usize, hi: usize) -> (r: Option<MemoryEntry>)
    requires
        lo <= hi <= v@.len(),
    ensures
        opt_model(r) == parse_entry(v@.subrange(lo as int, hi as int)),
{
    let ghost s = v@.subrange(lo as int, hi as int);
    let (a, b) = trim_range(v, lo, hi);
    let ghost t = trim(s);
    let p = chars_of("- [id:");
    if !(p.len() <= b - a && matches_at(v, &p, a)) {
        proof {
            if starts_with(t, entry_prefix()) {
                assert(t.take(p@.len() as int) =~= v@.subrange(a as int, a + p@.len()));
            }
        }
        return None;
    }
    let id_lo = a + p.len();
    proof {
        assert(t.take(p@.len() as int) =~= v@.subrange(a as int, a + p@.len()));
        assert(t.skip(p@.len() as int) =~= v@.subrange(id_lo as int, b as int));
    }
    let ghost rest = t.skip(p@.len() as int);
    let k = match find_sep(v, id_lo, b, Sep::Char(']')) {
        Some(k) => k,
        None => {
            return None;
        },
    };
    proof {
        assert(rest.take(k - id_lo) =~= v@.subrange(id_lo as int, k as int));
        assert(rest.skip(k - id_lo + 1) =~= v@.subrange(k + 1, b as int));
    }
    let s2 = trim_start_from(v, k + 1, b);
    let ghost after = v@.subrange(s2 as int, b as int);
    let tp = chars_of("[tags:");
    let tags;
    let text_lo;
    if tp.len() <= b - s2 && matches_at(v, &tp, s2) {
        let r_lo = s2 + tp.len();
        proof {
            assert(after.take(tp@.len() as int) =~= v@.subrange(s2 as int, r_lo as int));
            assert(after.skip(tp@.len() as int) =~= v@.subrange(r_lo as int, b as int));
        }
        let ghost rr = after.skip(tp@.len() as int);
        let k2 = match find_sep(v, r_lo, b, Sep::Char(']')) {
            Some(k2) => k2,
            None => {
                return None;
            },
        };
        proof {
            assert(rr.take(k2 - r_lo) =~= v@.subrange(r_lo as int, k2 as int));
            assert(rr.skip(k2 - r_lo + 1) =~= v@.subrange(k2 + 1, b as int));
        }
        tags = tag_list(v, r_lo, k2);
        text_lo = trim_start_from(v, k2 + 1, b);
    } else {
        proof {
            if starts_with(after, tags_prefix()) {
                assert(after.take(tp@.len() as int) =~= v@.subrange(s2 as int, s2 + tp@.len()));
            }
        }
        tags = Vec::new();
        text_lo = s2;
        proof {
            assert(views_of(tags@) =~= seq![]);
        }
    }
    let (ia, ib) = trim_range(v, id_lo, k);
    let (xa, xb) = trim_range(v, text_lo, b);
    if ia < ib && xa < xb {
        let id = string_from(v, ia, ib);
        let text = string_from(v, xa, xb);
        Some(MemoryEntry { id, tags, text })
    } else {
        None
    }
}

/// The entry that a line of the memory file holds, if it holds one.
pub fn parse_memory_entry_line(line: &str) -> (r: Option<MemoryEntry>)
    ensures
        opt_model(r) == parse_entry(line@),
{
    let v = chars_of(line);
    let r = parse_line_range(&v, 0, v.len());
    proof {
        assert(v@.subrange(0, v@.len() as int) =~= line@);
    }
    r
}


/// The entries of a memory file, one per line that holds one, in order.
pub fn parse_memory_entries(content: &str) -> (r: Vec<MemoryEntry>)
    ensures
        entry_models(r@) == parse_entries(content@),
{
    let v = chars_of(content);
    let ranges = line_ranges(&v);
    let ghost ls = lines(v@);
    let mut out: Vec<MemoryEntry> = Vec::new();
    let mut i: usize = 0;
    while i < ranges.len()
        invariant
            i <= ranges@.len() == ls.len(),
            ls == lines(v@),
            forall|k: int|
                0 <= k < ranges@.len() ==> {
                    &&& (#[trigger] ranges@[k]).0 <= ranges@[k].1 <= v@.len()
                    &&& v@.subrange(ranges@[k].0 as int, ranges@[k].1 as int) == ls[k]
                },
            entry_models(out@) == parse_lines(ls.take(i as int)),
        decreases ranges@.len() - i,
    {
        let (a, b) = ranges[i];
        let parsed = parse_line_range(&v, a, b);
        let ghost prev = out@;
        proof {
            assert(ls.take(i + 1).drop_last() =~= ls.take(i as int));
            assert(ls.take(i + 1).last() == ls[i as int]);
        }
        match parsed {
            Some(e) => {
                out.push(e);
                proof {
                    assert(entry_models(out@) =~= entry_models(prev).push(e@));
                }
            },
            None => {},
        }
        proof {
            assert(entry_models(out@) =~= parse_lines(ls.take(i + 1)));
        }
        i = i + 1;
    }
    proof {
        assert(ls.take(ranges@.len() as int) =~= ls);
    }
    out
}


/// How many entries a prompt shows at most; older ones are left out.
pub const MEMORY_PROMPT_LIMIT: usize = 40;

/// The tag list of a rendered entry: nothing where there are no tags.
pub open spec fn render_tags(tags: Seq<Seq<char>>) -> Seq<char> {
    if tags.len() == 0 {
        seq![]
    } else {
        " [tags:"@ + join(tags, ","@) + "]"@
    }
}

/// An entry written as a line of the memory file (without line break).
pub open spec fn render_entry(e: EntryModel) -> Seq<char> {
    entry_prefix() + e.id + "]"@ + render_tags(e.tags) + " "@ + trim(e.text)
}

/// The rendered lines of a list of entries.
pub open spec fn render_entries(es: Seq<EntryModel>) -> Seq<Seq<char>>
    decreases es.len(),
{
    if es.len() == 0 {
        seq![]
    } else {
        render_entries(es.drop_last()).push(render_entry(es.last()))
    }
}

/// The note that ends a prompt from which `k` older entries were left out.
pub open spec fn omitted_note(k: nat) -> Seq<char> {
    "\n... 已省略 "@ + decimal(k) + " 条较早记忆，可用 long_memory search 查询。"@
}

/// The memory prompt for a memory file: its last entries (at most
/// `MEMORY_PROMPT_LIMIT`), one per line, and a note of how many older ones
/// were left out; the trimmed file itself where it holds no entry.
pub open spec fn memory_prompt(content: Seq<char>) -> Seq<char> {
    let es = parse_entries(content);
    let n = es.len();
    if n == 0 {
        trim(content)
    } else {
        let shown = if n > MEMORY_PROMPT_LIMIT {
            es.skip(n - MEMORY_PROMPT_LIMIT)
        } else {
            es
        };
        let body = join(render_entries(shown), "\n"@);
        if n > MEMORY_PROMPT_LIMIT {
            body + omitted_note((n - MEMORY_PROMPT_LIMIT) as nat)
        } else {
            body
        }
    }
}

/// `join` of a list that grows by one piece.
pub proof fn lemma_join_push(parts: Seq<Seq<char>>, sep: Seq<char>, p: Seq<char>)
    ensures
        join(parts.push(p), sep) == if parts.len() == 0 {
            p
        } else {
            join(parts, sep) + sep + p
        },
{
    assert(parts.push(p).drop_last() =~= parts);
}

/// Appends the texts `parts` to `out`, with `sep` between them.
fn extend_joined(out: &mut Vec<char>, parts: &Vec<String>, sep: &str)
    ensures
        final(out)@ == old(out)@ + join(views_of(parts@), sep@),
{
    let ghost start = out@;
    let ghost ps = views_of(parts@);
    let mut i: usize = 0;
    proof {
        assert(ps.take(0) =~= seq![]);
        assert(start + join(ps.take(0), sep@) =~= start);
    }
    while i < parts.len()
        invariant
            i <= parts@.len() == ps.len(),
            ps == views_of(parts@),
            out@ == start + join(ps.take(i as int), sep@),
        decreases parts@.len() - i,
    {
        proof {
            assert(ps.take(i + 1) =~= ps.take(i as int).push(ps[i as int]));
            lemma_join_push(ps.take(i as int), sep@, ps[i as int]);
        }
        if i > 0 {
            extend_str(out, sep);
        }
        let c = chars_of(parts[i].as_str());
        extend_all(out, &c);
        proof {
            assert(out@ =~= start + join(ps.take(i + 1), sep@));
        }
        i = i + 1;
    }
    proof {
        assert(ps.take(parts@.len() as int) =~= ps);
    }
}

/// Appends the rendered line of `entry` to `out`.
fn extend_rendered(out: &mut Vec<char>, entry: &MemoryEntry)
    ensures
        final(out)@ == old(out)@ + render_entry(entry@),
{
    let ghost start = out@;
    extend_str(out, "- [id:");
    let id = chars_of(entry.id.as_str());
    extend_all(out, &id);
    extend_str(out, "]");
    if entry.tags.len() > 0 {
        extend_str(out, " [tags:");
        extend_joined(out, &entry.tags, ",");
        extend_str(out, "]");
    }
    extend_str(out, " ");
    let text = chars_of(entry.text.as_str());
    let (a, b) = trim_range(&text, 0, text.len());
    extend_range(out, &text, a, b);
    proof {
        assert(text@.subrange(0, text@.len() as int) =~= text@);
        assert(out@ =~= start + render_entry(entry@));
    }
}

/// An entry written as a line of the memory file (without line break).
pub fn render_memory_entry(entry: &MemoryEntry) -> (r: String)
    ensures
        r@ == render_entry(entry@),
{
    let mut out: Vec<char> = Vec::new();
    extend_rendered(&mut out, entry);
    proof {
        assert(out@ =~= render_entry(entry@));
    }
    string_of(&out)
}

/// The memory prompt for the content of a memory file: its last entries (at
/// most `MEMORY_PROMPT_LIMIT`), one per line, then a note of how many older
/// ones were left out; the trimmed content where it holds no entry.
pub fn render_memory_prompt(content: &str) -> (r: String)
    ensures
        r@ == memory_prompt(content@),
{
    let entries = parse_memory_entries(content);
    let ghost es = parse_entries(content@);
    let n = entries.len();
    proof {
        assert(entry_models(entries@).len() == n);
    }
    if n == 0 {
        let v = chars_of(content);
        let (a, b) = trim_range(&v, 0, v.len());
        proof {
            assert(v@.subrange(0, v@.len() as int) =~= content@);
        }
        return string_from(&v, a, b);
    }
    let first = if n > MEMORY_PROMPT_LIMIT { n - MEMORY_PROMPT_LIMIT } else { 0 };
    let ghost shown = if n > MEMORY_PROMPT_LIMIT { es.skip(n - MEMORY_PROMPT_LIMIT) } else { es };
    proof {
        assert(shown =~= es.skip(first as int));
    }
    let mut out: Vec<char> = Vec::new();
    let mut i = first;
    proof {
        assert(shown.take(0) =~= seq![]);
        assert(render_entries(shown.take(0)) =~= seq![]);
    }
    while i < n
        invariant
            first <= i <= n == entries@.len() == es.len(),
            entry_models(entries@) == es,
            shown == es.skip(first as int),
            out@ == join(render_entries(shown.take(i - first)), "\n"@),
        decreases n - i,
    {
        let ghost j = i - first;
        proof {
            assert(shown.take(j + 1).drop_last() =~= shown.take(j));
            assert(shown.take(j + 1).last() == shown[j]);
            assert(shown[j] == es[i as int]);
            assert(es[i as int] == entries@[i as int]@);
            lemma_join_push(render_entries(shown.take(j)), "\n"@, render_entry(shown[j]));
        }
        if i > first {
            extend_str(&mut out, "\n");
        }
        extend_rendered(&mut out, &entries[i]);
        proof {
            assert(out@ =~= join(render_entries(shown.take(j + 1)), "\n"@));
        }
        i = i + 1;
    }
    proof {
        assert(shown.take(n - first) =~= shown);
    }
    if n > MEMORY_PROMPT_LIMIT {
        let omitted = n - MEMORY_PROMPT_LIMIT;
        extend_str(&mut out, "\n... 已省略 ");
        push_decimal(&mut out, omitted as u128);
        extend_str(&mut out, " 条较早记忆，可用 long_memory search 查询。");
        proof {
            assert(out@ =~= join(render_entries(shown), "\n"@) + omitted_note(omitted as nat));
        }
    }
    string_of(&out)
}


// ---------------------------------------------------------------------------
// Search
// ---------------------------------------------------------------------------

/// The terms of pieces of a query: trimmed, the empty ones left out, and
/// lowercased.
pub open spec fn terms_of(pieces: Seq<Seq<char>>) -> Seq<Seq<char>>
    decreases pieces.len(),
{
    if pieces.len() == 0 {
        seq![]
    } else {
        let t = trim(pieces.last());
        terms_of(pieces.drop_last()) + (if t.len() > 0 {
            seq![lowercase(t)]
        } else {
            seq![]
        })
    }
}

/// The search terms of a query: its pieces between whitespace, `,` and `;`,
/// without the empty ones, lowercased.
pub open spec fn query_terms_spec(query: Seq<char>) -> Seq<Seq<char>> {
    terms_of(split(query, Sep::QueryPunct))
}

/// The terms of pieces of an ASCII query: trimmed, the empty ones left
/// out, and their capitals made small.
pub open spec fn ascii_terms_of(pieces: Seq<Seq<char>>) -> Seq<Seq<char>>
    decreases pieces.len(),
{
    if pieces.len() == 0 {
        seq![]
    } else {
        let t = trim(pieces.last());
        ascii_terms_of(pieces.drop_last()) + (if t.len() > 0 {
            seq![ascii_lower(t)]
        } else {
            seq![]
        })
    }
}

/// The search terms of a query: its pieces between whitespace, `,` and `;`,
/// without the empty ones, lowercased. No term is empty, and the terms of
/// an ASCII query are its pieces with their capitals made small.
pub fn query_terms(query: &str) -> (r: Vec<String>)
    ensures
        views_of(r@) == query_terms_spec(query@),
        forall|k: int| 0 <= k < r@.len() ==> (#[trigger] r@[k])@.len() > 0,
        all_ascii(query@) ==> views_of(r@) == ascii_terms_of(split(query@, Sep::QueryPunct)),
{
    let v = chars_of(query);
    let pieces = split_ranges(&v, 0, v.len(), Sep::QueryPunct);
    let ghost ps = split(v@.subrange(0, v@.len() as int), Sep::QueryPunct);
    proof {
        assert(v@.subrange(0, v@.len() as int) =~= query@);
    }
    let mut out: Vec<String> = Vec::new();
    let mut i: usize = 0;
    while i < pieces.len()
        invariant
            i <= pieces@.len() == ps.len(),
            forall|k: int|
                0 <= k < pieces@.len() ==> {
                    &&& (#[trigger] pieces@[k]).0 <= pieces@[k].1 <= v@.len()
                    &&& v@.subrange(pieces@[k].0 as int, pieces@[k].1 as int) == ps[k]
                },
            views_of(out@) == terms_of(ps.take(i as int)),
            v@ == query@,
            forall|k: int| 0 <= k < out@.len() ==> (#[trigger] out@[k])@.len() > 0,
            all_ascii(query@) ==> views_of(out@) == ascii_terms_of(ps.take(i as int)),
        decreases pieces@.len() - i,
    {
        let (a, b) = pieces[i];
        let (ta, tb) = trim_range(&v, a, b);
        proof {
            assert(ps.take(i + 1).drop_last() =~= ps.take(i as int));
            assert(ps.take(i + 1).last() == ps[i as int]);
        }
        let ghost prev = out@;
        if ta < tb {
            let piece = string_from(&v, ta, tb);
            proof {
                if all_ascii(query@) {
                    assert forall|j: int| 0 <= j < piece@.len() implies is_ascii_char(#[trigger] piece@[j]) by {
                        assert(piece@[j] == query@[ta + j]);
                    }
                }
            }
            let term = to_lowercase(piece.as_str());
            out.push(term);
            proof {
                assert(views_of(out@) =~= views_of(prev).push(term@));
            }
        }
        proof {
            assert(views_of(out@) =~= terms_of(ps.take(i + 1)));
            if all_ascii(query@) {
                assert(views_of(out@) =~= ascii_terms_of(ps.take(i + 1)));
            }
        }
        i = i + 1;
    }
    proof {
        assert(ps.take(pieces@.len() as int) =~= ps);
    }
    out
}

/// An entry with its id, tags and text lowercased.
pub open spec fn lowered(e: EntryModel) -> EntryModel {
    EntryModel {
        id: lowercase(e.id),
        tags: Seq::new(e.tags.len(), |i: int| lowercase(e.tags[i])),
        text: lowercase(e.text),
    }
}

/// An entry with the ASCII capitals of its id, tags and text made small.
pub open spec fn ascii_lowered(e: EntryModel) -> EntryModel {
    EntryModel {
        id: ascii_lower(e.id),
        tags: Seq::new(e.tags.len(), |i: int| ascii_lower(e.tags[i])),
        text: ascii_lower(e.text),
    }
}

/// Whether an entry's id, tags and text are all ASCII.
pub open spec fn entry_is_ascii(e: EntryModel) -> bool {
    &&& all_ascii(e.id)
    &&& forall|i: int| 0 <= i < e.tags.len() ==> all_ascii(#[trigger] e.tags[i])
    &&& all_ascii(e.text)
}

/// How many of the (lowercased) tags contain `term`.
pub open spec fn tag_hits(tags: Seq<Seq<char>>, term: Seq<char>) -> nat
    decreases tags.len(),
{
    if tags.len() == 0 {
        0
    } else {
        tag_hits(tags.drop_last(), term) + (if has_substring(tags.last(), term) {
            1nat
        } else {
            0nat
        })
    }
}

/// What one term adds to the score of a lowercased entry: 8 where the id is
/// the term, 4 for each tag that contains it, and 1 for each of its
/// non-overlapping occurrences in the text.
pub open spec fn term_score(le: EntryModel, term: Seq<char>) -> nat {
    (if le.id == term {
        8nat
    } else {
        0nat
    }) + 4 * tag_hits(le.tags, term) + count_matches(le.text, term)
}

/// The score of a lowercased entry for a list of terms: the sum of the
/// terms' scores.
pub open spec fn score_terms(le: EntryModel, terms: Seq<Seq<char>>) -> nat
    decreases terms.len(),
{
    if terms.len() == 0 {
        0
    } else {
        score_terms(le, terms.drop_last()) + term_score(le, terms.last())
    }
}

/// The score of an entry for a list of terms: that of its lowercased form.
pub open spec fn entry_score(e: EntryModel, terms: Seq<Seq<char>>) -> nat {
    score_terms(lowered(e), terms)
}

/// A number, or `usize::MAX` where it is larger.
pub open spec fn capped(n: nat) -> nat {
    if n > usize::MAX {
        usize::MAX as nat
    } else {
        n
    }
}

/// `x * 4`, or `usize::MAX` where that is larger.
fn saturating_times_four(x: usize) -> (r: usize)
    ensures
        r == capped(4 * (x as nat)),
{
    if x > usize::MAX / 4 {
        usize::MAX
    } else {
        4 * x
    }
}

/// The score of `entry` for `terms`, held at `usize::MAX` where it would
/// exceed it. For an ASCII entry the lowercasing is that of ASCII: the score
/// is that of the entry with its capitals made small.
pub fn memory_entry_score(entry: &MemoryEntry, terms: &[String]) -> (r: usize)
    ensures
        r == capped(entry_score(entry@, views_of(terms@))),
        entry_is_ascii(entry@) ==> r == capped(score_terms(ascii_lowered(entry@), views_of(terms@))),
{
    let ghost e = entry@;
    let text = to_lowercase(entry.text.as_str());
    let text_chars = chars_of(text.as_str());
    let id = to_lowercase(entry.id.as_str());
    let id_chars = chars_of(id.as_str());
    let mut tags: Vec<Vec<char>> = Vec::new();
    let mut t: usize = 0;
    while t < entry.tags.len()
        invariant
            t <= entry.tags@.len(),
            e == entry@,
            tags@.len() == t,
            forall|k: int| 0 <= k < t ==> (#[trigger] tags@[k])@ == lowercase(e.tags[k]),
            forall|k: int| 0 <= k < t && all_ascii(e.tags[k]) ==> (#[trigger] tags@[k])@ == ascii_lower(e.tags[k]),
        decreases entry.tags@.len() - t,
    {
        let lower = to_lowercase(entry.tags[t].as_str());
        tags.push(chars_of(lower.as_str()));
        t = t + 1;
    }
    let ghost le = EntryModel {
        id: id_chars@,
        tags: Seq::new(tags@.len(), |k: int| tags@[k]@),
        text: text_chars@,
    };
    proof {
        assert(lowered(e).tags =~= le.tags);
        assert(lowered(e) == le);
        if entry_is_ascii(e) {
            assert(ascii_lowered(e).tags =~= le.tags);
            assert(ascii_lowered(e) == le);
        }
    }
    let ghost ts = views_of(terms@);
    let mut total: usize = 0;
    let mut i: usize = 0;
    while i < terms.len()
        invariant
            i <= terms@.len() == ts.len(),
            ts == views_of(terms@),
            text_chars@ == le.text,
            id_chars@ == le.id,
            tags@.len() == le.tags.len(),
            forall|k: int| 0 <= k < tags@.len() ==> (#[trigger] tags@[k])@ == le.tags[k],
            total == capped(score_terms(le, ts.take(i as int))),
        decreases terms@.len() - i,
    {
        let term = chars_of(terms[i].as_str());
        let ghost tm = ts[i as int];
        let id_score: usize = if chars_eq(&id_chars, &term) { 8 } else { 0 };
        let mut hits: usize = 0;
        let mut k: usize = 0;
        while k < tags.len()
            invariant
                k <= tags@.len() == le.tags.len(),
                hits <= k,
                term@ == tm,
                forall|j: int| 0 <= j < tags@.len() ==> (#[trigger] tags@[j])@ == le.tags[j],
                hits == tag_hits(le.tags.take(k as int), tm),
            decreases tags@.len() - k,
        {
            proof {
                assert(le.tags.take(k + 1).drop_last() =~= le.tags.take(k as int));
                assert(le.tags.take(k + 1).last() == le.tags[k as int]);
            }
            if contains_chars(&tags[k], &term) {
                hits = hits + 1;
            }
            k = k + 1;
        }
        proof {
            assert(le.tags.take(tags@.len() as int) =~= le.tags);
        }
        let text_score: usize = if term.len() == 0 {
            if text_chars.len() == usize::MAX {
                usize::MAX
            } else {
                text_chars.len() + 1
            }
        } else {
            count_matches_exec(&text_chars, &term)
        };
        let tag_score = saturating_times_four(hits);
        let term_total = id_score.saturating_add(tag_score).saturating_add(text_score);
        proof {
            assert(text_score == capped(count_matches(le.text, tm)));
            assert(term_total == capped(term_score(le, tm)));
            assert(ts.take(i + 1).drop_last() =~= ts.take(i as int));
            assert(ts.take(i + 1).last() == tm);
        }
        total = total.saturating_add(term_total);
        i = i + 1;
    }
    proof {
        assert(ts.take(terms@.len() as int) =~= ts);
    }
    total
}

/// The capped scores of the entries for the terms.
pub open spec fn scores_of(es: Seq<EntryModel>, ts: Seq<Seq<char>>) -> Seq<nat> {
    Seq::new(es.len(), |i: int| capped(entry_score(es[i], ts)))
}

/// The ids of the entries.
pub open spec fn ids_of(es: Seq<EntryModel>) -> Seq<Seq<char>> {
    Seq::new(es.len(), |i: int| es[i].id)
}

/// Whether entry `i` comes before entry `j` in search results: a higher
/// score first, then the id that sorts later, then the earlier entry.
pub open spec fn ranks_before(sc: Seq<nat>, ids: Seq<Seq<char>>, i: int, j: int) -> bool {
    ||| sc[i] > sc[j]
    ||| (sc[i] == sc[j] && lex_less(ids[j], ids[i]))
    ||| (sc[i] == sc[j] && ids[i] == ids[j] && i < j)
}

/// Whether `order` lists the entries with a positive score, each once, best
/// first as `ranks_before` orders them.
pub open spec fn is_ranking(sc: Seq<nat>, ids: Seq<Seq<char>>, order: Seq<usize>) -> bool {
    &&& forall|k: int| 0 <= k < order.len() ==> (#[trigger] order[k]) < sc.len() && sc[order[k] as int] > 0
    &&& forall|i: int| 0 <= i < sc.len() && #[trigger] sc[i] > 0 ==> exists|k: int| 0 <= k < order.len() && order[k] == i
    &&& forall|k1: int, k2: int|
        0 <= k1 < k2 < order.len() ==> ranks_before(sc, ids, #[trigger] order[k1] as int, #[trigger] order[k2] as int)
}

pub proof fn lemma_ranks_before_irreflexive(sc: Seq<nat>, ids: Seq<Seq<char>>, i: int)
    ensures
        !ranks_before(sc, ids, i, i),
{
    lemma_lex_less_irreflexive(ids[i]);
}

pub proof fn lemma_ranks_before_total(sc: Seq<nat>, ids: Seq<Seq<char>>, i: int, j: int)
    requires
        i != j,
    ensures
        ranks_before(sc, ids, i, j) || ranks_before(sc, ids, j, i),
{
    lemma_lex_less_total(ids[i], ids[j]);
}

pub proof fn lemma_ranks_before_asymmetric(sc: Seq<nat>, ids: Seq<Seq<char>>, i: int, j: int)
    ensures
        !(ranks_before(sc, ids, i, j) && ranks_before(sc, ids, j, i)),
{
    lemma_lex_less_asymmetric(ids[i], ids[j]);
    lemma_lex_less_irreflexive(ids[i]);
}

pub proof fn lemma_ranks_before_transitive(sc: Seq<nat>, ids: Seq<Seq<char>>, i: int, j: int, k: int)
    requires
        ranks_before(sc, ids, i, j),
        ranks_before(sc, ids, j, k),
    ensures
        ranks_before(sc, ids, i, k),
{
    if sc[i] == sc[j] && sc[j] == sc[k] {
        if lex_less(ids[j], ids[i]) && lex_less(ids[k], ids[j]) {
            lemma_lex_less_transitive(ids[k], ids[j], ids[i]);
        }
    }
}

/// Whether entry `i` comes before entry `j` in search results.
fn ranks_before_exec(scores: &Vec<usize>, ids: &Vec<Vec<char>>, i: usize, j: usize) -> (r: bool)
    requires
        i < scores@.len(),
        j < scores@.len(),
        scores@.len() == ids@.len(),
    ensures
        r == ranks_before(
            Seq::new(scores@.len(), |x: int| scores@[x] as nat),
            Seq::new(ids@.len(), |x: int| ids@[x]@),
            i as int,
            j as int,
        ),
{
    if scores[i] > scores[j] {
        return true;
    }
    if scores[i] < scores[j] {
        return false;
    }
    if lex_less_exec(&ids[j], &ids[i]) {
        return true;
    }
    chars_eq(&ids[i], &ids[j]) && i < j
}

/// The indices of the entries that score above zero for `terms`, best first:
/// by score, then by id from the last to the first in `String` order, then
/// in the order of `entries`.
pub fn rank_memory_entries(entries: &[MemoryEntry], terms: &[String]) -> (r: Vec<usize>)
    ensures
        is_ranking(
            scores_of(entry_models(entries@), views_of(terms@)),
            ids_of(entry_models(entries@)),
            r@,
        ),
{
    let ghost es = entry_models(entries@);
    let ghost ts = views_of(terms@);
    let n = entries.len();
    let mut scores: Vec<usize> = Vec::new();
    let mut ids: Vec<Vec<char>> = Vec::new();
    let mut i: usize = 0;
    while i < n
        invariant
            n == entries@.len() == es.len(),
            es == entry_models(entries@),
            ts == views_of(terms@),
            i <= n,
            scores@.len() == i,
            ids@.len() == i,
            forall|k: int| 0 <= k < i ==> (#[trigger] scores@[k]) as nat == capped(entry_score(es[k], ts)),
            forall|k: int| 0 <= k < i ==> (#[trigger] ids@[k])@ == es[k].id,
        decreases n - i,
    {
        scores.push(memory_entry_score(&entries[i], terms));
        ids.push(chars_of(entries[i].id.as_str()));
        i = i + 1;
    }
    let ghost sc = scores_of(es, ts);
    let ghost is = ids_of(es);
    proof {
        assert(sc =~= Seq::new(scores@.len(), |x: int| scores@[x] as nat));
        assert(is =~= Seq::new(ids@.len(), |x: int| ids@[x]@));
    }
    let mut out: Vec<usize> = Vec::new();
    let mut i: usize = 0;
    while i < n
        invariant
            n == scores@.len() == ids@.len() == sc.len() == is.len(),
            sc == Seq::new(scores@.len(), |x: int| scores@[x] as nat),
            is == Seq::new(ids@.len(), |x: int| ids@[x]@),
            i <= n,
            forall|k: int| 0 <= k < out@.len() ==> (#[trigger] out@[k]) < i && sc[out@[k] as int] > 0,
            forall|x: int| 0 <= x < i && #[trigger] sc[x] > 0 ==> exists|k: int| 0 <= k < out@.len() && out@[k] == x,
            forall|k1: int, k2: int|
                0 <= k1 < k2 < out@.len() ==> ranks_before(sc, is, #[trigger] out@[k1] as int, #[trigger] out@[k2] as int),
        decreases n - i,
    {
        if scores[i] > 0 {
            let mut p: usize = 0;
            while p < out.len() && !ranks_before_exec(&scores, &ids, i, out[p])
                invariant
                    n == scores@.len() == ids@.len() == sc.len() == is.len(),
                    sc == Seq::new(scores@.len(), |x: int| scores@[x] as nat),
                    is == Seq::new(ids@.len(), |x: int| ids@[x]@),
                    i < n,
                    p <= out@.len(),
                    forall|k: int| 0 <= k < out@.len() ==> (#[trigger] out@[k]) < i,
                    forall|q: int| 0 <= q < p ==> !ranks_before(sc, is, i as int, #[trigger] out@[q] as int),
                decreases out@.len() - p,
            {
                p = p + 1;
            }
            let ghost prev = out@;
            out.insert(p, i);
            proof {
                let new = out@;
                assert(new.len() == prev.len() + 1);
                assert forall|k: int| 0 <= k < new.len() implies new[k] == (if k < p {
                    prev[k]
                } else if k == p {
                    i
                } else {
                    prev[k - 1]
                }) by {}
                assert forall|k: int| 0 <= k < new.len() implies (#[trigger] new[k]) < i + 1 && sc[new[k] as int] > 0 by {
                    if k < p {
                        assert(new[k] == prev[k]);
                    } else if k > p {
                        assert(new[k] == prev[k - 1]);
                    }
                }
                assert forall|x: int| 0 <= x < i + 1 && #[trigger] sc[x] > 0 implies exists|k: int| 0 <= k < new.len() && new[k] == x by {
                    if x == i {
                        assert(new[p as int] == x);
                    } else {
                        let k = choose|k: int| 0 <= k < prev.len() && prev[k] == x;
                        if k < p {
                            assert(new[k] == x);
                        } else {
                            assert(new[k + 1] == x);
                        }
                    }
                }
                assert forall|k1: int, k2: int| 0 <= k1 < k2 < new.len() implies ranks_before(sc, is, #[trigger] new[k1] as int, #[trigger] new[k2] as int) by {
                    if k2 < p {
                        assert(new[k1] == prev[k1] && new[k2] == prev[k2]);
                    } else if k2 == p {
                        assert(new[k1] == prev[k1]);
                        assert(!ranks_before(sc, is, i as int, prev[k1] as int));
                        assert(prev[k1] != i);
                        lemma_ranks_before_total(sc, is, i as int, prev[k1] as int);
                    } else if k1 > p {
                        assert(new[k1] == prev[k1 - 1] && new[k2] == prev[k2 - 1]);
                    } else if k1 == p {
                        assert(new[k2] == prev[k2 - 1]);
                        assert(p < prev.len());
                        assert(ranks_before(sc, is, i as int, prev[p as int] as int));
                        if k2 - 1 > p {
                            assert(ranks_before(sc, is, prev[p as int] as int, prev[k2 - 1] as int));
                            lemma_ranks_before_transitive(sc, is, i as int, prev[p as int] as int, prev[k2 - 1] as int);
                        }
                    } else {
                        assert(new[k1] == prev[k1] && new[k2] == prev[k2 - 1]);
                    }
                }
            }
        } else {
            proof {
                assert forall|x: int| 0 <= x < i + 1 && #[trigger] sc[x] > 0 implies exists|k: int| 0 <= k < out@.len() && out@[k] == x by {
                    assert(x != i);
                }
            }
        }
        i = i + 1;
    }
    out
}


/// Whether `r` is what a search of `entries` for `query` gives: every entry,
/// in order, where the query has no terms; else the entries in the order of
/// the one ranking for the query's terms. An ASCII query's terms are those
/// of its pieces with their capitals made small.
pub open spec fn search_result(entries: Seq<MemoryEntry>, query: Seq<char>, r: Seq<&MemoryEntry>) -> bool {
    &&& query_terms_spec(query).len() == 0 ==> r.len() == entries.len() && forall|k: int|
        0 <= k < r.len() ==> *(#[trigger] r[k]) == entries[k]
    &&& query_terms_spec(query).len() > 0 ==> exists|order: Seq<usize>|
        {
            &&& is_ranking(scores_of(entry_models(entries), query_terms_spec(query)), ids_of(entry_models(entries)), order)
            &&& r.len() == order.len()
            &&& forall|k: int| 0 <= k < r.len() ==> *(#[trigger] r[k]) == entries[order[k] as int]
        }
    &&& all_ascii(query) ==> query_terms_spec(query) == ascii_terms_of(split(query, Sep::QueryPunct))
}

/// The entries that match a query, best first.
///
/// A query without terms matches every entry, in the given order. Else the
/// entries with a positive score for the query's terms come back, each once,
/// ordered by `ranks_before`: higher score first, then the id that sorts
/// later, then the earlier entry.
pub fn search_memory_entries<'a>(entries: &'a [MemoryEntry], query: &str) -> (r: Vec<&'a MemoryEntry>)
    ensures
        search_result(entries@, query@, r@),
{
    let terms = query_terms(query);
    let mut out: Vec<&'a MemoryEntry> = Vec::new();
    if terms.len() == 0 {
        proof {
            assert(views_of(terms@).len() == 0);
        }
        let mut i: usize = 0;
        while i < entries.len()
            invariant
                i <= entries@.len(),
                out@.len() == i,
                forall|k: int| 0 <= k < i ==> *(#[trigger] out@[k]) == entries@[k],
            decreases entries@.len() - i,
        {
            out.push(&entries[i]);
            i = i + 1;
        }
        return out;
    }
    let order = rank_memory_entries(entries, terms.as_slice());
    let mut k: usize = 0;
    while k < order.len()
        invariant
            k <= order@.len(),
            out@.len() == k,
            forall|j: int| 0 <= j < order@.len() ==> (#[trigger] order@[j]) < entries@.len(),
            forall|j: int| 0 <= j < k ==> *(#[trigger] out@[j]) == entries@[order@[j] as int],
        decreases order@.len() - k,
    {
        out.push(&entries[order[k]]);
        k = k + 1;
    }
    out
}


/// Two lists that are each strictly ordered by `ranks_before` and hold the
/// same indices are the same list.
proof fn lemma_sorted_same_elements(sc: Seq<nat>, ids: Seq<Seq<char>>, o1: Seq<usize>, o2: Seq<usize>)
    requires
        forall|k1: int, k2: int|
            0 <= k1 < k2 < o1.len() ==> ranks_before(sc, ids, #[trigger] o1[k1] as int, #[trigger] o1[k2] as int),
        forall|k1: int, k2: int|
            0 <= k1 < k2 < o2.len() ==> ranks_before(sc, ids, #[trigger] o2[k1] as int, #[trigger] o2[k2] as int),
        forall|x: usize| o1.contains(x) <==> o2.contains(x),
    ensures
        o1 == o2,
    decreases o1.len(),
{
    if o1.len() == 0 {
        if o2.len() > 0 {
            assert(o2.contains(o2[0]));
        }
        assert(o1 =~= o2);
    } else {
        assert(o1.contains(o1[0]));
        let j = choose|j: int| 0 <= j < o2.len() && o2[j] == o1[0];
        assert(o2.contains(o2[0]));
        let i = choose|i: int| 0 <= i < o1.len() && o1[i] == o2[0];
        if j > 0 && i > 0 {
            assert(ranks_before(sc, ids, o2[0] as int, o2[j] as int));
            assert(ranks_before(sc, ids, o1[0] as int, o1[i] as int));
            lemma_ranks_before_asymmetric(sc, ids, o1[0] as int, o2[0] as int);
        } else if j > 0 {
            assert(o1[0] == o2[0]);
            assert(ranks_before(sc, ids, o2[0] as int, o2[j] as int));
            lemma_ranks_before_irreflexive(sc, ids, o1[0] as int);
        } else if i > 0 {
            assert(o1[0] == o2[0]);
            assert(ranks_before(sc, ids, o1[0] as int, o1[i] as int));
            lemma_ranks_before_irreflexive(sc, ids, o1[0] as int);
        }
        assert(o1[0] == o2[0]);
        let t1 = o1.drop_first();
        let t2 = o2.drop_first();
        assert forall|x: usize| t1.contains(x) <==> t2.contains(x) by {
            if t1.contains(x) {
                let a = choose|a: int| 0 <= a < t1.len() && t1[a] == x;
                assert(o1[a + 1] == x);
                assert(ranks_before(sc, ids, o1[0] as int, o1[a + 1] as int));
                lemma_ranks_before_irreflexive(sc, ids, x as int);
                assert(o2.contains(x));
                let b = choose|b: int| 0 <= b < o2.len() && o2[b] == x;
                assert(b != 0);
                assert(t2[b - 1] == x);
            }
            if t2.contains(x) {
                let a = choose|a: int| 0 <= a < t2.len() && t2[a] == x;
                assert(o2[a + 1] == x);
                assert(ranks_before(sc, ids, o2[0] as int, o2[a + 1] as int));
                lemma_ranks_before_irreflexive(sc, ids, x as int);
                assert(o1.contains(x));
                let b = choose|b: int| 0 <= b < o1.len() && o1[b] == x;
                assert(b != 0);
                assert(t1[b - 1] == x);
            }
        }
        assert forall|k1: int, k2: int| 0 <= k1 < k2 < t1.len() implies ranks_before(sc, ids, #[trigger] t1[k1] as int, #[trigger] t1[k2] as int) by {
            assert(t1[k1] == o1[k1 + 1] && t1[k2] == o1[k2 + 1]);
        }
        assert forall|k1: int, k2: int| 0 <= k1 < k2 < t2.len() implies ranks_before(sc, ids, #[trigger] t2[k1] as int, #[trigger] t2[k2] as int) by {
            assert(t2[k1] == o2[k1 + 1] && t2[k2] == o2[k2 + 1]);
        }
        lemma_sorted_same_elements(sc, ids, t1, t2);
        assert(o1 =~= seq![o1[0]] + t1);
        assert(o2 =~= seq![o2[0]] + t2);
    }
}

/// The search order is determined: for given scores and ids, only one list
/// is a ranking.
pub proof fn lemma_ranking_unique(sc: Seq<nat>, ids: Seq<Seq<char>>, o1: Seq<usize>, o2: Seq<usize>)
    requires
        is_ranking(sc, ids, o1),
        is_ranking(sc, ids, o2),
    ensures
        o1 == o2,
{
    assert forall|x: usize| o1.contains(x) <==> o2.contains(x) by {
        if o1.contains(x) {
            let k = choose|k: int| 0 <= k < o1.len() && o1[k] == x;
            assert(sc[x as int] > 0);
        }
        if o2.contains(x) {
            let k = choose|k: int| 0 <= k < o2.len() && o2[k] == x;
            assert(sc[x as int] > 0);
        }
    }
    lemma_sorted_same_elements(sc, ids, o1, o2);
}


/// A memory file's content counts only where it is not blank.
pub fn usable_memory(content: String) -> (r: Option<String>)
    ensures
        is_blank(content@) ==> r is None,
        !is_blank(content@) ==> r == Some(content),
{
    let v = chars_of(content.as_str());
    let (a, b) = trim_range(&v, 0, v.len());
    proof {
        assert(v@.subrange(0, v@.len() as int) =~= content@);
    }
    if a == b {
        None
    } else {
        Some(content)
    }
}


/// The memory prompt of a project, from the content of its memory file
/// (`None` where there is no file): nothing where there is no file or it is
/// blank, else the prompt rendered from it.
pub fn load_project_memory_prompt(content: Option<String>) -> (r: Option<String>)
    ensures
        match content {
            None => r is None,
            Some(c) => if is_blank(c@) {
                r is None
            } else {
                r matches Some(p) && p@ == memory_prompt(c@)
            },
        },
{
    match content {
        None => None,
        Some(c) => match usable_memory(c) {
            None => None,
            Some(text) => Some(render_memory_prompt(text.as_str())),
        },
    }
}


/// Scores add up over terms: the score of an entry for two lists of terms
/// one after the other is the sum of its scores for each, and for no terms
/// it is 0. `memory_entry_score` holds each at `usize::MAX`, so its result
/// for the joined list is the two results added and held at `usize::MAX`.
pub proof fn lemma_score_additive(e: EntryModel, t1: Seq<Seq<char>>, t2: Seq<Seq<char>>)
    ensures
        entry_score(e, seq![]) == 0,
        entry_score(e, t1 + t2) == entry_score(e, t1) + entry_score(e, t2),
        capped(entry_score(e, t1 + t2)) == capped(capped(entry_score(e, t1)) + capped(entry_score(e, t2))),
    decreases t2.len(),
{
    if t2.len() == 0 {
        assert(t1 + t2 =~= t1);
    } else {
        lemma_score_additive(e, t1, t2.drop_last());
        assert((t1 + t2).drop_last() =~= t1 + t2.drop_last());
        assert((t1 + t2).last() == t2.last());
    }
}

} // verus!
