//! What holds of the memory file as a whole: entries written by
//! `render_memory_entry` are read back unchanged, one by one and as a file;
//! every entry the parser reads is well formed; whitespace around a file
//! does not change its entries; the memory prompt reads back as the
//! entries it shows, where no untagged entry's text opens a tag list; and
//! search gives the same entries for ASCII queries that differ only in
//! letter case.
use vstd::prelude::*;
use crate::memory::{
    ranks_before, entry_score, lowered, score_terms, tag_hits, terms_of, ascii_terms_of, entry_models, ids_of, is_ranking, lemma_ranking_unique, query_terms_spec,
    scores_of, search_result, MemoryEntry, entry_prefix, memory_prompt, parse_entries, parse_entry, parse_lines, render_entries,
    render_entry, render_tags, split_tags_and_text, starts_with, tags_prefix, tidy_tags,
    EntryModel, MEMORY_PROMPT_LIMIT,
};
use crate::text::{
    lex_less, lemma_lex_less_irreflexive, count_matches, has_substring, lowercase, all_ascii, ascii_lower, lemma_split_ascii_lower, lemma_trim_ascii_lower, all_white, decimal, digit_char, first_sep, is_sep, is_white_space, join, lemma_concat_avoids,
    lemma_first_sep, lemma_first_sep_at, lemma_join_avoids, lemma_join_last, lemma_lines_around,
    lemma_lines_join, lemma_lines_single, lemma_split_join, lemma_split_pieces_avoid,
    lemma_subrange_avoids, lemma_trim_all_white, lemma_trim_avoids, lemma_trim_end_prefix,
    lemma_trim_part, lemma_trim_start_prefix, lemma_trim_start_stop, lemma_trim_start_suffix,
    lemma_trim_strip_cr, lemma_trim_white_after, lemma_trim_white_before, lemma_trimmed, lines,
    split, strip_cr, trim, trim_start, Sep,
};

verus! {

/// Whether a tag can be written in a tag list and read back: not empty, no
/// whitespace at its ends, and neither `,` nor `]` in it.
pub open spec fn tag_writable(t: Seq<char>) -> bool {
    &&& t.len() > 0
    &&& trim(t) == t
    &&& !t.contains(',')
    &&& !t.contains(']')
}

/// Whether an entry has the shape of a parsed one: id and text not empty
/// and without whitespace at their ends, no `]` in the id, and writable tags.
pub open spec fn well_formed(e: EntryModel) -> bool {
    &&& e.id.len() > 0
    &&& trim(e.id) == e.id
    &&& !e.id.contains(']')
    &&& forall|i: int| 0 <= i < e.tags.len() ==> tag_writable(#[trigger] e.tags[i])
    &&& e.text.len() > 0
    &&& trim(e.text) == e.text
}

/// Whether an entry without tags has a text that itself opens a tag list.
pub open spec fn text_opens_tag_list(e: EntryModel) -> bool {
    e.tags.len() == 0 && starts_with(e.text, tags_prefix())
}

/// Whether an entry can be written as a line and read back unchanged: it is
/// well formed, and its text does not stand where a tag list would.
pub open spec fn writable(e: EntryModel) -> bool {
    well_formed(e) && !text_opens_tag_list(e)
}

/// Tags that are already trimmed and not empty are kept as they are.
pub proof fn lemma_tidy_tags_keeps(tags: Seq<Seq<char>>)
    requires
        forall|i: int| 0 <= i < tags.len() ==> tag_writable(#[trigger] tags[i]),
    ensures
        tidy_tags(tags) == tags,
    decreases tags.len(),
{
    if tags.len() > 0 {
        let init = tags.drop_last();
        assert forall|i: int| 0 <= i < init.len() implies tag_writable(#[trigger] init[i]) by {
            assert(init[i] == tags[i]);
        }
        lemma_tidy_tags_keeps(init);
        assert(tag_writable(tags[tags.len() - 1]));
        assert(tidy_tags(tags) =~= tags);
    }
}

/// The tags and text that follow the id of a written entry are read back.
proof fn lemma_tags_and_text_roundtrip(e: EntryModel)
    requires
        writable(e),
    ensures
        split_tags_and_text(trim_start(render_tags(e.tags) + " "@ + e.text)) == Some((e.tags, e.text)),
{
    reveal_strlit(" ");
    reveal_strlit(" [tags:");
    reveal_strlit("[tags:");
    reveal_strlit("]");
    reveal_strlit(",");
    lemma_trimmed(e.text);
    let space = seq![' '];
    assert(" "@ =~= space);
    if e.tags.len() == 0 {
        assert(render_tags(e.tags) + " "@ + e.text =~= space + e.text);
        assert(is_white_space(' '));
        lemma_trim_start_prefix(space, e.text);
    } else {
        let j = join(e.tags, ","@);
        assert(","@ =~= seq![',']);
        let a = tags_prefix() + j + seq![']'] + space + e.text;
        assert(render_tags(e.tags) + " "@ + e.text =~= space + a);
        assert(a[0] == '[');
        lemma_trim_start_prefix(space, a);
        assert(a.take(tags_prefix().len() as int) =~= tags_prefix());
        let r = a.skip(tags_prefix().len() as int);
        assert(r =~= j + seq![']'] + space + e.text);
        assert forall|i: int, k: int| 0 <= i < e.tags.len() && 0 <= k < e.tags[i].len() implies #[trigger] e.tags[i][k] != ']' by {
            assert(tag_writable(e.tags[i]));
            assert(!e.tags[i].contains(']'));
        }
        assert forall|i: int, k: int| 0 <= i < e.tags.len() && 0 <= k < e.tags[i].len() implies #[trigger] e.tags[i][k] != ',' by {
            assert(tag_writable(e.tags[i]));
            assert(!e.tags[i].contains(','));
        }
        lemma_join_avoids(e.tags, seq![','], ']');
        assert forall|k: int| 0 <= k < j.len() implies !is_sep(Sep::Char(']'), #[trigger] r[k]) by {
            assert(r[k] == j[k]);
        }
        assert(r[j.len() as int] == ']');
        lemma_first_sep_at(r, Sep::Char(']'), j.len() as int);
        assert(r.take(j.len() as int) =~= j);
        lemma_split_join(e.tags, ',');
        lemma_tidy_tags_keeps(e.tags);
        assert(r.skip(j.len() + 1int) =~= space + e.text);
        assert(is_white_space(' '));
        lemma_trim_start_prefix(space, e.text);
    }
}

/// Reading back a written entry gives the entry: for every writable entry
/// `e`, the line `render_entry(e)` parses to `e`.
pub proof fn lemma_entry_roundtrip(e: EntryModel)
    requires
        writable(e),
    ensures
        parse_entry(render_entry(e)) == Some(e),
{
    reveal_strlit("- [id:");
    reveal_strlit("]");
    reveal_strlit(" ");
    lemma_trimmed(e.text);
    let line = render_entry(e);
    let tail = render_tags(e.tags) + " "@ + e.text;
    assert(line =~= entry_prefix() + e.id + seq![']'] + tail);
    assert(line[0] == '-');
    assert(line.last() == e.text.last());
    lemma_trimmed(line);
    assert(line.take(entry_prefix().len() as int) =~= entry_prefix());
    let rest = line.skip(entry_prefix().len() as int);
    assert(rest =~= e.id + seq![']'] + tail);
    assert forall|k: int| 0 <= k < e.id.len() implies !is_sep(Sep::Char(']'), #[trigger] rest[k]) by {
        assert(rest[k] == e.id[k]);
        assert(!e.id.contains(']'));
    }
    assert(rest[e.id.len() as int] == ']');
    lemma_first_sep_at(rest, Sep::Char(']'), e.id.len() as int);
    assert(rest.take(e.id.len() as int) =~= e.id);
    assert(rest.skip(e.id.len() + 1int) =~= tail);
    lemma_tags_and_text_roundtrip(e);
}


/// Whether no field of an entry holds a line break.
pub open spec fn single_line(e: EntryModel) -> bool {
    &&& !e.id.contains('\n')
    &&& forall|i: int| 0 <= i < e.tags.len() ==> !(#[trigger] e.tags[i]).contains('\n')
    &&& !e.text.contains('\n')
}

/// A written entry is one line that is not empty and ends in a character
/// that is not whitespace.
proof fn lemma_render_entry_line(e: EntryModel)
    requires
        writable(e),
        single_line(e),
    ensures
        render_entry(e).len() > 0,
        !render_entry(e).contains('\n'),
        !is_white_space(render_entry(e).last()),
{
    reveal_strlit("- [id:");
    reveal_strlit("]");
    reveal_strlit(" ");
    reveal_strlit(" [tags:");
    reveal_strlit(",");
    lemma_trimmed(e.text);
    let nl = '\n';
    assert(!entry_prefix().contains(nl)) by {
        if entry_prefix().contains(nl) {
            let j = choose|j: int| 0 <= j < entry_prefix().len() && entry_prefix()[j] == nl;
        }
    }
    assert(!"]"@.contains(nl)) by {
        if "]"@.contains(nl) {
            let j = choose|j: int| 0 <= j < "]"@.len() && "]"@[j] == nl;
        }
    }
    assert(!" "@.contains(nl)) by {
        if " "@.contains(nl) {
            let j = choose|j: int| 0 <= j < " "@.len() && " "@[j] == nl;
        }
    }
    assert(!render_tags(e.tags).contains(nl)) by {
        if e.tags.len() > 0 {
            assert(!" [tags:"@.contains(nl)) by {
                if " [tags:"@.contains(nl) {
                    let j = choose|j: int| 0 <= j < " [tags:"@.len() && " [tags:"@[j] == nl;
                }
            }
            assert forall|i: int, k: int| 0 <= i < e.tags.len() && 0 <= k < e.tags[i].len() implies #[trigger] e.tags[i][k] != nl by {
                assert(!e.tags[i].contains(nl));
            }
            assert forall|k: int| 0 <= k < ","@.len() implies #[trigger] ","@[k] != nl by {}
            lemma_join_avoids(e.tags, ","@, nl);
            let j = join(e.tags, ","@);
            assert(!j.contains(nl)) by {
                if j.contains(nl) {
                    let k = choose|k: int| 0 <= k < j.len() && j[k] == nl;
                }
            }
            lemma_concat_avoids(" [tags:"@, j, nl);
            lemma_concat_avoids(" [tags:"@ + j, "]"@, nl);
        } else {
            assert(!render_tags(e.tags).contains(nl));
        }
    }
    lemma_concat_avoids(entry_prefix(), e.id, nl);
    lemma_concat_avoids(entry_prefix() + e.id, "]"@, nl);
    lemma_concat_avoids(entry_prefix() + e.id + "]"@, render_tags(e.tags), nl);
    lemma_concat_avoids(entry_prefix() + e.id + "]"@ + render_tags(e.tags), " "@, nl);
    lemma_concat_avoids(entry_prefix() + e.id + "]"@ + render_tags(e.tags) + " "@, e.text, nl);
    assert(render_entry(e).last() == e.text.last());
}

/// The lines written for a list of entries, one by one.
proof fn lemma_render_entries_index(es: Seq<EntryModel>)
    ensures
        render_entries(es).len() == es.len(),
        forall|i: int| 0 <= i < es.len() ==> #[trigger] render_entries(es)[i] == render_entry(es[i]),
    decreases es.len(),
{
    if es.len() > 0 {
        lemma_render_entries_index(es.drop_last());
    }
}

/// Reading back the written lines of entries gives the entries.
proof fn lemma_parse_rendered_lines(es: Seq<EntryModel>)
    requires
        forall|i: int| 0 <= i < es.len() ==> writable(#[trigger] es[i]),
    ensures
        parse_lines(render_entries(es)) == es,
    decreases es.len(),
{
    if es.len() > 0 {
        let init = es.drop_last();
        assert forall|i: int| 0 <= i < init.len() implies writable(#[trigger] init[i]) by {
            assert(init[i] == es[i]);
        }
        lemma_parse_rendered_lines(init);
        assert(writable(es[es.len() - 1]));
        lemma_entry_roundtrip(es.last());
        assert(render_entries(es).drop_last() == render_entries(init));
        assert(parse_lines(render_entries(es)) =~= es);
    }
}

/// Reading back a written memory file gives its entries: for writable
/// entries whose fields hold no line break, the lines `render_entry` writes
/// for them, joined by line breaks, parse to the same entries in the same
/// order.
pub proof fn lemma_file_roundtrip(es: Seq<EntryModel>)
    requires
        forall|i: int| 0 <= i < es.len() ==> writable(#[trigger] es[i]) && single_line(es[i]),
    ensures
        parse_entries(join(render_entries(es), "\n"@)) == es,
{
    reveal_strlit("\n");
    assert("\n"@ =~= seq!['\n']);
    let ls = render_entries(es);
    lemma_render_entries_index(es);
    assert forall|i: int| 0 <= i < ls.len() implies (#[trigger] ls[i]).len() > 0 && !ls[i].contains('\n')
        && ls[i].last() != '\r' by {
        assert(ls[i] == render_entry(es[i]));
        lemma_render_entry_line(es[i]);
        assert(is_white_space('\r'));
    }
    lemma_lines_join(ls);
    assert forall|i: int| 0 <= i < es.len() implies writable(#[trigger] es[i]) by {}
    lemma_parse_rendered_lines(es);
}


/// Whether no field of an entry holds the character `d`.
pub open spec fn fields_avoid(e: EntryModel, d: char) -> bool {
    &&& !e.id.contains(d)
    &&& forall|i: int| 0 <= i < e.tags.len() ==> !(#[trigger] e.tags[i]).contains(d)
    &&& !e.text.contains(d)
}

/// The tags made of comma-free pieces are writable, and hold no character
/// that no piece holds.
proof fn lemma_tidy_tags_shape(ps: Seq<Seq<char>>, d: char)
    requires
        forall|i: int| 0 <= i < ps.len() ==> !(#[trigger] ps[i]).contains(',') && !ps[i].contains(']'),
    ensures
        forall|i: int| 0 <= i < tidy_tags(ps).len() ==> tag_writable(#[trigger] tidy_tags(ps)[i]),
        (forall|i: int| 0 <= i < ps.len() ==> !(#[trigger] ps[i]).contains(d)) ==> forall|i: int|
            0 <= i < tidy_tags(ps).len() ==> !(#[trigger] tidy_tags(ps)[i]).contains(d),
    decreases ps.len(),
{
    if ps.len() > 0 {
        let init = ps.drop_last();
        let last = ps.last();
        assert forall|i: int| 0 <= i < init.len() implies !(#[trigger] init[i]).contains(',') && !init[i].contains(']') by {
            assert(init[i] == ps[i]);
        }
        lemma_tidy_tags_shape(init, d);
        assert(last == ps[ps.len() - 1]);
        let t = trim(last);
        lemma_trim_part(last);
        lemma_trim_avoids(last, ',');
        lemma_trim_avoids(last, ']');
        let whole = tidy_tags(ps);
        assert forall|i: int| 0 <= i < whole.len() implies tag_writable(#[trigger] whole[i]) by {
            if i < tidy_tags(init).len() {
                assert(whole[i] == tidy_tags(init)[i]);
            } else {
                assert(whole[i] == t);
            }
        }
        if forall|i: int| 0 <= i < ps.len() ==> !(#[trigger] ps[i]).contains(d) {
            assert forall|i: int| 0 <= i < init.len() implies !(#[trigger] init[i]).contains(d) by {
                assert(init[i] == ps[i]);
            }
            lemma_trim_avoids(last, d);
            assert forall|i: int| 0 <= i < whole.len() implies !(#[trigger] whole[i]).contains(d) by {
                if i < tidy_tags(init).len() {
                    assert(whole[i] == tidy_tags(init)[i]);
                } else {
                    assert(whole[i] == t);
                }
            }
        }
    }
}

/// The part of a text before its first separator holds no separator.
proof fn lemma_before_sep(s: Seq<char>, c: char)
    requires
        0 <= first_sep(s, Sep::Char(c)),
    ensures
        !s.take(first_sep(s, Sep::Char(c))).contains(c),
{
    lemma_first_sep(s, Sep::Char(c));
    let k = first_sep(s, Sep::Char(c));
    if s.take(k).contains(c) {
        let j = choose|j: int| 0 <= j < k && s.take(k)[j] == c;
        assert(s[j] == c);
    }
}

/// Every entry the parser reads is well formed, and holds no character that
/// its line does not hold.
pub proof fn lemma_parsed_entry_shape(line: Seq<char>, d: char)
    requires
        parse_entry(line) is Some,
    ensures
        well_formed(parse_entry(line)->0),
        !line.contains(d) ==> fields_avoid(parse_entry(line)->0, d),
{
    let e = parse_entry(line)->0;
    let t = trim(line);
    let rest = t.skip(entry_prefix().len() as int);
    let sep = Sep::Char(']');
    let k = first_sep(rest, sep);
    lemma_first_sep(rest, sep);
    let raw_id = rest.take(k);
    lemma_before_sep(rest, ']');
    lemma_trim_part(raw_id);
    lemma_trim_avoids(raw_id, ']');
    let after = trim_start(rest.skip(k + 1));
    let tt = split_tags_and_text(after)->0;
    lemma_trim_part(tt.1);
    if starts_with(after, tags_prefix()) {
        let r = after.skip(tags_prefix().len() as int);
        let k2 = first_sep(r, sep);
        lemma_first_sep(r, sep);
        let raw = r.take(k2);
        lemma_before_sep(r, ']');
        let ps = split(raw, Sep::Char(','));
        lemma_split_pieces_avoid(raw, ',', ']');
        lemma_tidy_tags_shape(ps, d);
        if !line.contains(d) {
            lemma_trim_avoids(line, d);
            lemma_subrange_avoids(t, entry_prefix().len() as int, t.len() as int, d);
            assert(rest =~= t.subrange(entry_prefix().len() as int, t.len() as int));
            lemma_subrange_avoids(rest, k + 1, rest.len() as int, d);
            assert(rest.skip(k + 1) =~= rest.subrange(k + 1, rest.len() as int));
            lemma_trim_avoids(rest.skip(k + 1), d);
            lemma_subrange_avoids(after, tags_prefix().len() as int, after.len() as int, d);
            assert(r =~= after.subrange(tags_prefix().len() as int, after.len() as int));
            lemma_subrange_avoids(r, 0, k2, d);
            assert(raw =~= r.subrange(0, k2));
            lemma_split_pieces_avoid(raw, ',', d);
            lemma_subrange_avoids(r, k2 + 1, r.len() as int, d);
            assert(r.skip(k2 + 1) =~= r.subrange(k2 + 1, r.len() as int));
            lemma_trim_avoids(r.skip(k2 + 1), d);
            lemma_trim_avoids(tt.1, d);
            lemma_subrange_avoids(rest, 0, k, d);
            assert(raw_id =~= rest.subrange(0, k));
            lemma_trim_avoids(raw_id, d);
        }
    } else {
        assert(e.tags.len() == 0);
        if !line.contains(d) {
            lemma_trim_avoids(line, d);
            lemma_subrange_avoids(t, entry_prefix().len() as int, t.len() as int, d);
            assert(rest =~= t.subrange(entry_prefix().len() as int, t.len() as int));
            lemma_subrange_avoids(rest, k + 1, rest.len() as int, d);
            assert(rest.skip(k + 1) =~= rest.subrange(k + 1, rest.len() as int));
            lemma_trim_avoids(rest.skip(k + 1), d);
            lemma_trim_avoids(tt.1, d);
            lemma_subrange_avoids(rest, 0, k, d);
            assert(raw_id =~= rest.subrange(0, k));
            lemma_trim_avoids(raw_id, d);
        }
    }
}


/// The entries of two runs of lines are those of each, one after the other.
proof fn lemma_parse_lines_append(a: Seq<Seq<char>>, b: Seq<Seq<char>>)
    ensures
        parse_lines(a + b) == parse_lines(a) + parse_lines(b),
    decreases b.len(),
{
    if b.len() == 0 {
        assert(a + b =~= a);
        assert(parse_lines(a) + parse_lines(b) =~= parse_lines(a));
    } else {
        lemma_parse_lines_append(a, b.drop_last());
        assert((a + b).drop_last() =~= a + b.drop_last());
        assert((a + b).last() == b.last());
        assert(parse_lines(a + b) =~= parse_lines(a) + parse_lines(b));
    }
}

/// Each entry read from lines was read from one of them.
proof fn lemma_parse_lines_origin(ls: Seq<Seq<char>>)
    ensures
        forall|i: int|
            0 <= i < parse_lines(ls).len() ==> exists|j: int|
                0 <= j < ls.len() && parse_entry(#[trigger] ls[j]) == Some(#[trigger] parse_lines(ls)[i]),
    decreases ls.len(),
{
    if ls.len() > 0 {
        let init = ls.drop_last();
        lemma_parse_lines_origin(init);
        let es = parse_lines(ls);
        assert forall|i: int| 0 <= i < es.len() implies exists|j: int|
            0 <= j < ls.len() && parse_entry(#[trigger] ls[j]) == Some(#[trigger] es[i]) by {
            if i < parse_lines(init).len() {
                assert(es[i] == parse_lines(init)[i]);
                let j = choose|j: int| 0 <= j < init.len() && parse_entry(#[trigger] init[j]) == Some(parse_lines(init)[i]);
                assert(ls[j] == init[j]);
            } else {
                assert(parse_entry(ls[ls.len() - 1]) == Some(es[i]));
            }
        }
    }
}

/// No line of a text holds a line break.
proof fn lemma_lines_avoid_newline(s: Seq<char>)
    ensures
        forall|i: int| 0 <= i < lines(s).len() ==> !(#[trigger] lines(s)[i]).contains('\n'),
    decreases s.len(),
{
    if s.len() > 0 {
        let sep = Sep::Char('\n');
        lemma_first_sep(s, sep);
        let k = first_sep(s, sep);
        let ls = lines(s);
        if 0 <= k < s.len() {
            lemma_before_sep(s, '\n');
            let l = strip_cr(s.take(k));
            assert(!l.contains('\n')) by {
                if l.contains('\n') {
                    let j = choose|j: int| 0 <= j < l.len() && l[j] == '\n';
                    assert(s.take(k)[j] == '\n');
                }
            }
            lemma_lines_avoid_newline(s.skip(k + 1));
            assert forall|i: int| 0 <= i < ls.len() implies !(#[trigger] ls[i]).contains('\n') by {
                if i > 0 {
                    assert(ls[i] == lines(s.skip(k + 1))[i - 1]);
                }
            }
        } else {
            assert(!s.contains('\n')) by {
                if s.contains('\n') {
                    let j = choose|j: int| 0 <= j < s.len() && s[j] == '\n';
                    assert(is_sep(sep, s[j]));
                }
            }
        }
    }
}

/// Every entry of a memory file is well formed and single-line.
pub proof fn lemma_parsed_entries_shape(content: Seq<char>)
    ensures
        forall|i: int| 0 <= i < parse_entries(content).len() ==> well_formed(#[trigger] parse_entries(content)[i])
            && single_line(parse_entries(content)[i]),
{
    let ls = lines(content);
    let es = parse_entries(content);
    lemma_parse_lines_origin(ls);
    lemma_lines_avoid_newline(content);
    assert forall|i: int| 0 <= i < es.len() implies well_formed(#[trigger] es[i]) && single_line(es[i]) by {
        let j = choose|j: int| 0 <= j < ls.len() && parse_entry(#[trigger] ls[j]) == Some(es[i]);
        lemma_parsed_entry_shape(ls[j], '\n');
    }
}

/// No digit of a decimal number is a line break.
proof fn lemma_decimal_avoids_newline(n: nat)
    ensures
        !decimal(n).contains('\n'),
        decimal(n).len() > 0,
    decreases n,
{
    if n >= 10 {
        lemma_decimal_avoids_newline(n / 10);
    }
    let dc = digit_char(n % 10);
    assert(dc != '\n') by {
        assert(((48 + n % 10) as u8) >= 48);
    }
    if decimal(n).contains('\n') {
        let j = choose|j: int| 0 <= j < decimal(n).len() && decimal(n)[j] == '\n';
        if n >= 10 {
            if j < decimal(n / 10).len() {
                assert(decimal(n / 10)[j] == '\n');
            }
        }
    }
}


/// The entries a prompt shows: the last `MEMORY_PROMPT_LIMIT` of them.
pub open spec fn shown_entries(es: Seq<EntryModel>) -> Seq<EntryModel> {
    if es.len() > MEMORY_PROMPT_LIMIT {
        es.skip(es.len() - MEMORY_PROMPT_LIMIT)
    } else {
        es
    }
}

/// A line that does not begin with `-` holds no entry.
proof fn lemma_no_entry_without_dash(l: Seq<char>)
    requires
        l.len() > 0,
        l[0] != '-',
        !is_white_space(l[0]),
    ensures
        parse_entry(l) is None,
{
    reveal_strlit("- [id:");
    lemma_trim_start_stop(l);
    let j = lemma_trim_end_prefix(l);
    let t = trim(l);
    assert(t == l.take(j));
    if starts_with(t, entry_prefix()) {
        assert(t.take(entry_prefix().len() as int)[0] == t[0]);
        assert(t[0] == l[0]);
        assert(entry_prefix()[0] == '-');
    }
}

/// The prompt of a memory file reads back as the entries it shows: where
/// none of the file's entries without tags has a text that opens a tag
/// list, parsing the prompt gives the file's last `MEMORY_PROMPT_LIMIT`
/// entries, in order; the note on the older ones left out holds no entry,
/// and a file without entries gives a prompt without entries.
pub proof fn lemma_prompt_roundtrip(content: Seq<char>)
    requires
        forall|i: int|
            0 <= i < parse_entries(content).len() ==> !text_opens_tag_list(#[trigger] parse_entries(content)[i]),
    ensures
        parse_entries(memory_prompt(content)) == shown_entries(parse_entries(content)),
{
    let es = parse_entries(content);
    let n = es.len();
    if n == 0 {
        lemma_parse_trimmed(content);
        assert(shown_entries(es) =~= es);
        return;
    }
    lemma_parsed_entries_shape(content);
    let shown = shown_entries(es);
    assert forall|i: int| 0 <= i < shown.len() implies writable(#[trigger] shown[i]) && single_line(shown[i]) by {
        if n > MEMORY_PROMPT_LIMIT {
            assert(shown[i] == es[i + n - MEMORY_PROMPT_LIMIT]);
        }
    }
    lemma_file_roundtrip(shown);
    let body = join(render_entries(shown), "\n"@);
    if n > MEMORY_PROMPT_LIMIT {
        let k = (n - MEMORY_PROMPT_LIMIT) as nat;
        reveal_strlit("\n");
        reveal_strlit("\n... 已省略 ");
        reveal_strlit("... 已省略 ");
        reveal_strlit(" 条较早记忆，可用 long_memory search 查询。");
        let head = "... 已省略 "@;
        let tail = " 条较早记忆，可用 long_memory search 查询。"@;
        let nb = head + decimal(k) + tail;
        assert("\n... 已省略 "@ =~= seq!['\n'] + head);
        assert(memory_prompt(content) =~= body + seq!['\n'] + nb);
        // The body ends with the last shown entry, which ends in a non-whitespace character.
        lemma_render_entries_index(shown);
        let rs = render_entries(shown);
        assert(rs.last() == render_entry(shown[shown.len() - 1]));
        lemma_render_entry_line(shown[shown.len() - 1]);
        assert("\n"@ =~= seq!['\n']);
        lemma_join_last(rs, "\n"@);
        assert(is_white_space('\n') && is_white_space('\r'));
        lemma_lines_around(body, nb);
        // The note is one line, and holds no entry.
        assert(!head.contains('\n')) by {
            if head.contains('\n') {
                let j = choose|j: int| 0 <= j < head.len() && head[j] == '\n';
            }
        }
        assert(!tail.contains('\n')) by {
            if tail.contains('\n') {
                let j = choose|j: int| 0 <= j < tail.len() && tail[j] == '\n';
            }
        }
        lemma_decimal_avoids_newline(k);
        lemma_concat_avoids(head, decimal(k), '\n');
        lemma_concat_avoids(head + decimal(k), tail, '\n');
        lemma_lines_single(nb);
        assert(nb[0] == '.');
        lemma_no_entry_without_dash(nb);
        assert(parse_lines(seq![nb]) =~= seq![]) by {
            let one = seq![nb];
            assert(one.drop_last() =~= Seq::<Seq<char>>::empty());
            assert(parse_lines(one.drop_last()) =~= seq![]);
            assert(one.last() == nb);
            assert(parse_entry(one.last()) is None);
        }
        lemma_parse_lines_append(lines(body), seq![nb]);
        assert(parse_entries(memory_prompt(content)) =~= shown);
    }
}


/// A line is read by its trimmed text alone.
proof fn lemma_parse_by_trim(l1: Seq<char>, l2: Seq<char>)
    requires
        trim(l1) == trim(l2),
    ensures
        parse_entry(l1) == parse_entry(l2),
{
}

/// A blank line holds no entry.
proof fn lemma_blank_line(l: Seq<char>)
    requires
        trim(l).len() == 0,
    ensures
        parse_entry(l) is None,
{
    reveal_strlit("- [id:");
}

/// The entries of a line followed by more lines.
proof fn lemma_parse_lines_cons(l: Seq<char>, rest: Seq<Seq<char>>)
    ensures
        parse_lines(seq![l] + rest) == match parse_entry(l) {
            Some(e) => seq![e],
            None => seq![],
        } + parse_lines(rest),
{
    lemma_parse_lines_append(seq![l], rest);
    let one = seq![l];
    assert(one.drop_last() =~= Seq::<Seq<char>>::empty());
    assert(parse_lines(one.drop_last()) =~= seq![]);
    assert(one.last() == l);
    assert(parse_lines(one) =~= match parse_entry(l) {
        Some(e) => seq![e],
        None => seq![],
    });
}

/// The lines of a text whose first line break is at `k`.
proof fn lemma_lines_first(x: Seq<char>, k: int)
    requires
        0 <= k < x.len(),
        x[k] == '\n',
        forall|j: int| 0 <= j < k ==> #[trigger] x[j] != '\n',
    ensures
        lines(x) == seq![strip_cr(x.take(k))] + lines(x.skip(k + 1)),
{
    lemma_first_sep_at(x, Sep::Char('\n'), k);
}

/// A text without line breaks, if any, is one line.
proof fn lemma_lines_unbroken(x: Seq<char>)
    requires
        forall|j: int| 0 <= j < x.len() ==> #[trigger] x[j] != '\n',
    ensures
        x.len() > 0 ==> lines(x) == seq![x],
        x.len() == 0 ==> lines(x) == Seq::<Seq<char>>::empty(),
{
    if x.len() > 0 {
        lemma_first_sep_at(x, Sep::Char('\n'), x.len() as int);
    }
}

/// Whitespace before a memory file does not change its entries.
pub proof fn lemma_parse_white_before(w: Seq<char>, s: Seq<char>)
    requires
        all_white(w),
    ensures
        parse_entries(w + s) == parse_entries(s),
    decreases w.len(),
{
    let x = w + s;
    let sep = Sep::Char('\n');
    if w.len() == 0 {
        assert(x =~= s);
        return;
    }
    lemma_first_sep(w, sep);
    let k = first_sep(w, sep);
    if k >= 0 {
        assert forall|j: int| 0 <= j < k implies #[trigger] x[j] != '\n' by {
            assert(x[j] == w[j]);
            assert(!is_sep(sep, w[j]));
        }
        assert(x[k] == w[k]);
        lemma_lines_first(x, k);
        let head = x.take(k);
        assert(all_white(head)) by {
            assert forall|j: int| 0 <= j < head.len() implies is_white_space(#[trigger] head[j]) by {
                assert(head[j] == w[j]);
            }
        }
        lemma_trim_all_white(head);
        lemma_trim_strip_cr(head);
        lemma_blank_line(strip_cr(head));
        let w2 = w.skip(k + 1);
        assert(all_white(w2)) by {
            assert forall|j: int| 0 <= j < w2.len() implies is_white_space(#[trigger] w2[j]) by {
                assert(w2[j] == w[j + k + 1]);
            }
        }
        assert(x.skip(k + 1) =~= w2 + s);
        lemma_parse_white_before(w2, s);
        lemma_parse_lines_cons(strip_cr(head), lines(w2 + s));
        assert(parse_entries(x) =~= parse_entries(s));
    } else {
        lemma_first_sep(s, sep);
        let j = first_sep(s, sep);
        if j >= 0 {
            let at = w.len() + j;
            assert forall|i: int| 0 <= i < at implies #[trigger] x[i] != '\n' by {
                if i < w.len() {
                    assert(x[i] == w[i]);
                    assert(!is_sep(sep, w[i]));
                } else {
                    assert(x[i] == s[i - w.len()]);
                    assert(!is_sep(sep, s[i - w.len()]));
                }
            }
            assert(x[at] == s[j]);
            lemma_lines_first(x, at);
            assert forall|i: int| 0 <= i < j implies #[trigger] s[i] != '\n' by {
                assert(!is_sep(sep, s[i]));
            }
            lemma_lines_first(s, j);
            assert(x.take(at) =~= w + s.take(j));
            assert(x.skip(at + 1) =~= s.skip(j + 1));
            lemma_trim_strip_cr(w + s.take(j));
            lemma_trim_strip_cr(s.take(j));
            lemma_trim_white_before(w, s.take(j));
            lemma_parse_by_trim(strip_cr(w + s.take(j)), strip_cr(s.take(j)));
            lemma_parse_lines_cons(strip_cr(x.take(at)), lines(s.skip(j + 1)));
            lemma_parse_lines_cons(strip_cr(s.take(j)), lines(s.skip(j + 1)));
        } else {
            assert forall|i: int| 0 <= i < x.len() implies #[trigger] x[i] != '\n' by {
                if i < w.len() {
                    assert(x[i] == w[i]);
                    assert(!is_sep(sep, w[i]));
                } else {
                    assert(x[i] == s[i - w.len()]);
                    assert(!is_sep(sep, s[i - w.len()]));
                }
            }
            lemma_lines_unbroken(x);
            assert forall|i: int| 0 <= i < s.len() implies #[trigger] s[i] != '\n' by {
                assert(!is_sep(sep, s[i]));
            }
            lemma_lines_unbroken(s);
            lemma_trim_white_before(w, s);
            lemma_parse_lines_cons(x, seq![]);
            assert(seq![x] + Seq::<Seq<char>>::empty() =~= seq![x]);
            if s.len() == 0 {
                assert(x =~= w);
                lemma_trim_all_white(w);
                lemma_blank_line(x);
                assert(parse_entries(x) =~= parse_entries(s));
            } else {
                lemma_parse_lines_cons(s, seq![]);
                assert(seq![s] + Seq::<Seq<char>>::empty() =~= seq![s]);
                lemma_parse_by_trim(x, s);
            }
        }
    }
}

/// Whitespace after a memory file does not change its entries.
pub proof fn lemma_parse_white_after(s: Seq<char>, w: Seq<char>)
    requires
        all_white(w),
    ensures
        parse_entries(s + w) == parse_entries(s),
    decreases s.len(),
{
    let x = s + w;
    let sep = Sep::Char('\n');
    if s.len() == 0 {
        assert(x =~= w);
        lemma_parse_white_before(w, s);
        assert(w + s =~= w);
        return;
    }
    lemma_first_sep(s, sep);
    let k = first_sep(s, sep);
    if k >= 0 {
        assert forall|j: int| 0 <= j < k implies #[trigger] x[j] != '\n' by {
            assert(x[j] == s[j]);
            assert(!is_sep(sep, s[j]));
        }
        assert forall|j: int| 0 <= j < k implies #[trigger] s[j] != '\n' by {
            assert(!is_sep(sep, s[j]));
        }
        assert(x[k] == s[k]);
        lemma_lines_first(x, k);
        lemma_lines_first(s, k);
        assert(x.take(k) =~= s.take(k));
        assert(x.skip(k + 1) =~= s.skip(k + 1) + w);
        lemma_parse_white_after(s.skip(k + 1), w);
        lemma_parse_lines_cons(strip_cr(s.take(k)), lines(s.skip(k + 1) + w));
        lemma_parse_lines_cons(strip_cr(s.take(k)), lines(s.skip(k + 1)));
    } else {
        assert forall|i: int| 0 <= i < s.len() implies #[trigger] s[i] != '\n' by {
            assert(!is_sep(sep, s[i]));
        }
        lemma_lines_unbroken(s);
        lemma_parse_lines_cons(s, seq![]);
        assert(seq![s] + Seq::<Seq<char>>::empty() =~= seq![s]);
        lemma_first_sep(w, sep);
        let j = first_sep(w, sep);
        if j >= 0 {
            let at = s.len() + j;
            assert forall|i: int| 0 <= i < at implies #[trigger] x[i] != '\n' by {
                if i < s.len() {
                    assert(x[i] == s[i]);
                } else {
                    assert(x[i] == w[i - s.len()]);
                    assert(!is_sep(sep, w[i - s.len()]));
                }
            }
            assert(x[at] == w[j]);
            lemma_lines_first(x, at);
            assert(x.take(at) =~= s + w.take(j));
            let w2 = w.skip(j + 1);
            assert(x.skip(at + 1) =~= w2);
            assert(all_white(w.take(j))) by {
                assert forall|i: int| 0 <= i < w.take(j).len() implies is_white_space(#[trigger] w.take(j)[i]) by {
                    assert(w.take(j)[i] == w[i]);
                }
            }
            assert(all_white(w2)) by {
                assert forall|i: int| 0 <= i < w2.len() implies is_white_space(#[trigger] w2[i]) by {
                    assert(w2[i] == w[i + j + 1]);
                }
            }
            lemma_trim_strip_cr(s + w.take(j));
            lemma_trim_white_after(s, w.take(j));
            lemma_parse_by_trim(strip_cr(x.take(at)), s);
            lemma_parse_white_before(w2, seq![]);
            assert(w2 + Seq::<char>::empty() =~= w2);
            assert(lines(Seq::<char>::empty()) =~= Seq::<Seq<char>>::empty());
            assert(parse_entries(Seq::<char>::empty()) =~= seq![]);
            lemma_parse_lines_cons(strip_cr(x.take(at)), lines(w2));
        } else {
            assert forall|i: int| 0 <= i < x.len() implies #[trigger] x[i] != '\n' by {
                if i < s.len() {
                    assert(x[i] == s[i]);
                } else {
                    assert(x[i] == w[i - s.len()]);
                    assert(!is_sep(sep, w[i - s.len()]));
                }
            }
            lemma_lines_unbroken(x);
            lemma_parse_lines_cons(x, seq![]);
            assert(seq![x] + Seq::<Seq<char>>::empty() =~= seq![x]);
            lemma_trim_white_after(s, w);
            lemma_parse_by_trim(x, s);
        }
    }
}

/// Trimming a memory file does not change its entries.
pub proof fn lemma_parse_trimmed(content: Seq<char>)
    ensures
        parse_entries(trim(content)) == parse_entries(content),
{
    let a = lemma_trim_start_suffix(content);
    let ts = trim_start(content);
    let b = lemma_trim_end_prefix(ts);
    let w1 = content.take(a);
    let t = trim(content);
    let w2 = ts.skip(b);
    assert(all_white(w1)) by {
        assert forall|i: int| 0 <= i < w1.len() implies is_white_space(#[trigger] w1[i]) by {
            assert(w1[i] == content[i]);
        }
    }
    assert(all_white(w2)) by {
        assert forall|i: int| 0 <= i < w2.len() implies is_white_space(#[trigger] w2[i]) by {
            assert(w2[i] == ts[i + b]);
        }
    }
    assert(t == ts.take(b));
    assert(content =~= w1 + (t + w2));
    lemma_parse_white_before(w1, t + w2);
    lemma_parse_white_after(t, w2);
}


/// Lines parse independently: the entries of two texts joined by a line
/// break are the entries of the first followed by those of the second.
pub proof fn lemma_parse_split_newline(a: Seq<char>, b: Seq<char>)
    ensures
        parse_entries(a + seq!['\n'] + b) == parse_entries(a) + parse_entries(b),
    decreases a.len(),
{
    let x = a + seq!['\n'] + b;
    let sep = Sep::Char('\n');
    lemma_first_sep(a, sep);
    let k = first_sep(a, sep);
    if k >= 0 {
        assert forall|j: int| 0 <= j < k implies #[trigger] x[j] != '\n' by {
            assert(x[j] == a[j]);
            assert(!is_sep(sep, a[j]));
        }
        assert forall|j: int| 0 <= j < k implies #[trigger] a[j] != '\n' by {
            assert(!is_sep(sep, a[j]));
        }
        assert(x[k] == a[k]);
        lemma_lines_first(x, k);
        lemma_lines_first(a, k);
        assert(x.take(k) =~= a.take(k));
        assert(x.skip(k + 1) =~= a.skip(k + 1) + seq!['\n'] + b);
        lemma_parse_split_newline(a.skip(k + 1), b);
        let l = strip_cr(a.take(k));
        lemma_parse_lines_cons(l, lines(a.skip(k + 1) + seq!['\n'] + b));
        lemma_parse_lines_cons(l, lines(a.skip(k + 1)));
        assert(parse_entries(x) =~= parse_entries(a) + parse_entries(b));
    } else {
        assert forall|j: int| 0 <= j < a.len() implies #[trigger] x[j] != '\n' by {
            assert(x[j] == a[j]);
            assert(!is_sep(sep, a[j]));
        }
        assert forall|j: int| 0 <= j < a.len() implies #[trigger] a[j] != '\n' by {
            assert(!is_sep(sep, a[j]));
        }
        assert(x[a.len() as int] == '\n');
        lemma_lines_first(x, a.len() as int);
        assert(x.take(a.len() as int) =~= a);
        assert(x.skip(a.len() + 1int) =~= b);
        lemma_lines_unbroken(a);
        lemma_parse_lines_cons(strip_cr(a), lines(b));
        lemma_trim_strip_cr(a);
        lemma_parse_by_trim(strip_cr(a), a);
        if a.len() == 0 {
            lemma_trim_all_white(a);
            lemma_blank_line(a);
            assert(parse_entries(a) =~= seq![]);
        } else {
            lemma_parse_lines_cons(a, seq![]);
            assert(seq![a] + Seq::<Seq<char>>::empty() =~= seq![a]);
        }
        assert(parse_entries(x) =~= parse_entries(a) + parse_entries(b));
    }
}


/// Pieces that are the same once their ASCII capitals are made small give
/// the same ASCII terms.
proof fn lemma_ascii_terms_agree(p1: Seq<Seq<char>>, p2: Seq<Seq<char>>)
    requires
        p1.len() == p2.len(),
        forall|i: int| 0 <= i < p1.len() ==> ascii_lower(#[trigger] p1[i]) == ascii_lower(p2[i]),
    ensures
        ascii_terms_of(p1) == ascii_terms_of(p2),
    decreases p1.len(),
{
    if p1.len() > 0 {
        let (d1, d2) = (p1.drop_last(), p2.drop_last());
        assert forall|i: int| 0 <= i < d1.len() implies ascii_lower(#[trigger] d1[i]) == ascii_lower(d2[i]) by {
            assert(d1[i] == p1[i] && d2[i] == p2[i]);
        }
        lemma_ascii_terms_agree(d1, d2);
        let (l1, l2) = (p1.last(), p2.last());
        assert(ascii_lower(l1) == ascii_lower(l2)) by {
            assert(l1 == p1[p1.len() - 1] && l2 == p2[p2.len() - 1]);
        }
        lemma_trim_ascii_lower(l1);
        lemma_trim_ascii_lower(l2);
        assert(ascii_lower(trim(l1)).len() == trim(l1).len());
        assert(ascii_lower(trim(l2)).len() == trim(l2).len());
    }
}

/// Search does not tell ASCII capitals from small letters: two ASCII
/// queries that are the same once their capitals are made small (such as a
/// query and its upper- or lowercase form) find the same entries in the
/// same order.
pub proof fn lemma_search_ignores_ascii_case(
    entries: Seq<MemoryEntry>,
    q1: Seq<char>,
    q2: Seq<char>,
    r1: Seq<&MemoryEntry>,
    r2: Seq<&MemoryEntry>,
)
    requires
        all_ascii(q1),
        all_ascii(q2),
        ascii_lower(q1) == ascii_lower(q2),
        search_result(entries, q1, r1),
        search_result(entries, q2, r2),
    ensures
        r1 == r2,
{
    let qp = Sep::QueryPunct;
    let (s1, s2) = (split(q1, qp), split(q2, qp));
    lemma_split_ascii_lower(q1);
    lemma_split_ascii_lower(q2);
    assert forall|i: int| 0 <= i < s1.len() implies ascii_lower(#[trigger] s1[i]) == ascii_lower(s2[i]) by {
        assert(split(ascii_lower(q1), qp)[i] == ascii_lower(s1[i]));
        assert(split(ascii_lower(q2), qp)[i] == ascii_lower(s2[i]));
    }
    lemma_ascii_terms_agree(s1, s2);
    let ts = query_terms_spec(q1);
    assert(query_terms_spec(q2) == ts);
    if ts.len() == 0 {
        assert forall|k: int| 0 <= k < r1.len() implies r1[k] == r2[k] by {
            assert(*r1[k] == entries[k] && *r2[k] == entries[k]);
        }
        assert(r1 =~= r2);
    } else {
        let sc = scores_of(entry_models(entries), ts);
        let ids = ids_of(entry_models(entries));
        let o1 = choose|order: Seq<usize>|
            {
                &&& is_ranking(sc, ids, order)
                &&& r1.len() == order.len()
                &&& forall|k: int| 0 <= k < r1.len() ==> *(#[trigger] r1[k]) == entries[order[k] as int]
            };
        let o2 = choose|order: Seq<usize>|
            {
                &&& is_ranking(sc, ids, order)
                &&& r2.len() == order.len()
                &&& forall|k: int| 0 <= k < r2.len() ==> *(#[trigger] r2[k]) == entries[order[k] as int]
            };
        lemma_ranking_unique(sc, ids, o1, o2);
        assert forall|k: int| 0 <= k < r1.len() implies r1[k] == r2[k] by {
            assert(*r1[k] == entries[o1[k] as int] && *r2[k] == entries[o2[k] as int]);
        }
        assert(r1 =~= r2);
    }
}


// ---------------------------------------------------------------------------
// Scores
// ---------------------------------------------------------------------------

/// Tag hits add up over tag lists: the tags of two lists one after the other
/// are hit as often as the two lists together.
pub proof fn lemma_tag_hits_additive(t1: Seq<Seq<char>>, t2: Seq<Seq<char>>, term: Seq<char>)
    ensures
        tag_hits(seq![], term) == 0,
        tag_hits(t1 + t2, term) == tag_hits(t1, term) + tag_hits(t2, term),
    decreases t2.len(),
{
    if t2.len() == 0 {
        assert(t1 + t2 =~= t1);
    } else {
        lemma_tag_hits_additive(t1, t2.drop_last(), term);
        assert((t1 + t2).drop_last() =~= t1 + t2.drop_last());
        assert((t1 + t2).last() == t2.last());
    }
}

/// One tag is hit once where it contains the term, else not at all.
pub proof fn lemma_tag_hits_single(tag: Seq<char>, term: Seq<char>)
    ensures
        tag_hits(seq![tag], term) == (if has_substring(tag, term) { 1nat } else { 0nat }),
{
    let ts = seq![tag];
    assert(ts.drop_last() =~= Seq::<Seq<char>>::empty());
    assert(tag_hits(ts.drop_last(), term) == 0);
    assert(ts.last() == tag);
}

/// The tag hits are the number of tags that contain the term.
pub proof fn lemma_tag_hits_count(tags: Seq<Seq<char>>, term: Seq<char>)
    ensures
        tag_hits(tags, term) == tags.filter(|t: Seq<char>| has_substring(t, term)).len(),
        tag_hits(tags, term) <= tags.len(),
        (forall|i: int| 0 <= i < tags.len() ==> has_substring(#[trigger] tags[i], term)) ==> tag_hits(tags, term)
            == tags.len(),
    decreases tags.len(),
{
    reveal(Seq::filter);
    if tags.len() > 0 {
        lemma_tag_hits_count(tags.drop_last(), term);
        if forall|i: int| 0 <= i < tags.len() ==> has_substring(#[trigger] tags[i], term) {
            assert forall|i: int| 0 <= i < tags.drop_last().len() implies has_substring(
                #[trigger] tags.drop_last()[i],
                term,
            ) by {
                assert(tags.drop_last()[i] == tags[i]);
            }
            assert(has_substring(tags[tags.len() - 1], term));
        }
    }
}

/// The tags of an entry whose lowercased form contains the term.
pub open spec fn tags_containing(tags: Seq<Seq<char>>, term: Seq<char>) -> Seq<Seq<char>> {
    tags.filter(|t: Seq<char>| has_substring(lowercase(t), term))
}

proof fn lemma_lowered_tag_hits(tags: Seq<Seq<char>>, term: Seq<char>)
    ensures
        tag_hits(Seq::new(tags.len(), |i: int| lowercase(tags[i])), term) == tags_containing(tags, term).len(),
    decreases tags.len(),
{
    reveal(Seq::filter);
    if tags.len() > 0 {
        let lt = Seq::new(tags.len(), |i: int| lowercase(tags[i]));
        let d = tags.drop_last();
        lemma_lowered_tag_hits(d, term);
        assert(lt.drop_last() =~= Seq::new(d.len(), |i: int| lowercase(d[i])));
        assert(lt.last() == lowercase(tags.last()));
    }
}

/// What one term scores for an entry, case aside: 8 where the entry's id
/// is the term, 4 for each tag that contains the term, and 1 for each
/// occurrence of the term in the text, counted without overlap.
pub proof fn lemma_term_score_parts(e: EntryModel, term: Seq<char>)
    ensures
        entry_score(e, seq![term]) == (if lowercase(e.id) == term { 8nat } else { 0nat }) + 4
            * tags_containing(e.tags, term).len() + count_matches(lowercase(e.text), term),
{
    let le = lowered(e);
    assert(seq![term].drop_last() =~= Seq::<Seq<char>>::empty());
    assert(score_terms(le, seq![term]) == score_terms(le, seq![]) + crate::memory::term_score(le, term));
    lemma_lowered_tag_hits(e.tags, term);
}

/// Adding a tag to an entry raises its score for a term by 4 where the
/// lowercased tag contains the term, and leaves it unchanged otherwise.
pub proof fn lemma_score_add_tag(e: EntryModel, tag: Seq<char>, term: Seq<char>)
    ensures
        entry_score(EntryModel { id: e.id, tags: e.tags.push(tag), text: e.text }, seq![term]) == entry_score(
            e,
            seq![term],
        ) + (if has_substring(lowercase(tag), term) { 4nat } else { 0nat }),
{
    let e2 = EntryModel { id: e.id, tags: e.tags.push(tag), text: e.text };
    lemma_term_score_parts(e, term);
    lemma_term_score_parts(e2, term);
    reveal(Seq::filter);
    assert(e2.tags.drop_last() =~= e.tags);
    assert(e2.tags.last() == tag);
}

/// An entry whose lowercased tags all contain a term scores at least 4 per
/// tag for it.
pub proof fn lemma_score_all_tags_hit(e: EntryModel, term: Seq<char>)
    requires
        forall|i: int| 0 <= i < e.tags.len() ==> has_substring(lowercase(#[trigger] e.tags[i]), term),
    ensures
        entry_score(e, seq![term]) >= 4 * e.tags.len(),
{
    let lt = Seq::new(e.tags.len(), |i: int| lowercase(e.tags[i]));
    assert forall|i: int| 0 <= i < lt.len() implies has_substring(#[trigger] lt[i], term) by {
        assert(lt[i] == lowercase(e.tags[i]));
    }
    lemma_tag_hits_count(lt, term);
    lemma_lowered_tag_hits(e.tags, term);
    lemma_term_score_parts(e, term);
}

// ---------------------------------------------------------------------------
// Query terms
// ---------------------------------------------------------------------------

/// Whether a character separates the terms of a query: whitespace, `,` or
/// `;`, and nothing else.
pub open spec fn splits_query(c: char) -> bool {
    is_white_space(c) || c == ',' || c == ';'
}

/// A query without whitespace, `,` and `;` is one term: the query
/// lowercased, whatever other characters (such as `-`) it holds.
pub proof fn lemma_query_one_term(query: Seq<char>)
    requires
        query.len() > 0,
        forall|i: int| 0 <= i < query.len() ==> !splits_query(#[trigger] query[i]),
    ensures
        query_terms_spec(query) == seq![lowercase(query)],
{
    let qp = Sep::QueryPunct;
    assert forall|j: int| 0 <= j < query.len() implies !is_sep(qp, #[trigger] query[j]) by {
        assert(!splits_query(query[j]));
    }
    lemma_first_sep_at(query, qp, query.len() as int);
    assert(split(query, qp) == seq![query]);
    assert(!is_white_space(query[0]));
    assert(trim_start(query) == query);
    assert(!is_white_space(query.last())) by {
        assert(!splits_query(query[query.len() - 1]));
    }
    assert(crate::text::trim_end(query) == query);
    assert(seq![query].drop_last() =~= Seq::<Seq<char>>::empty());
    assert(terms_of(seq![query]) == terms_of(seq![]) + seq![lowercase(query)]);
}

proof fn lemma_terms_of_append(p1: Seq<Seq<char>>, p2: Seq<Seq<char>>)
    ensures
        terms_of(p1 + p2) == terms_of(p1) + terms_of(p2),
    decreases p2.len(),
{
    if p2.len() == 0 {
        assert(p1 + p2 =~= p1);
        assert(terms_of(p1) + terms_of(p2) =~= terms_of(p1));
    } else {
        lemma_terms_of_append(p1, p2.drop_last());
        assert((p1 + p2).drop_last() =~= p1 + p2.drop_last());
        assert((p1 + p2).last() == p2.last());
        let t = trim(p2.last());
        let tail = if t.len() > 0 { seq![lowercase(t)] } else { Seq::<Seq<char>>::empty() };
        assert(terms_of(p1) + terms_of(p2.drop_last()) + tail =~= terms_of(p1) + (terms_of(p2.drop_last())
            + tail));
    }
}

proof fn lemma_split_around_query(x: Seq<char>, c: char, y: Seq<char>)
    requires
        splits_query(c),
    ensures
        split(x + seq![c] + y, Sep::QueryPunct) == split(x, Sep::QueryPunct) + split(y, Sep::QueryPunct),
    decreases x.len(),
{
    let s = x + seq![c] + y;
    let sep = Sep::QueryPunct;
    lemma_first_sep(x, sep);
    let k = first_sep(x, sep);
    if k == -1 {
        assert forall|j: int| 0 <= j < x.len() implies !is_sep(sep, #[trigger] s[j]) by {
            assert(s[j] == x[j]);
        }
        assert(s[x.len() as int] == c);
        lemma_first_sep_at(s, sep, x.len() as int);
        assert(s.take(x.len() as int) =~= x);
        assert(s.skip(x.len() + 1int) =~= y);
        lemma_first_sep_at(x, sep, x.len() as int);
    } else {
        assert forall|j: int| 0 <= j < k implies !is_sep(sep, #[trigger] s[j]) by {
            assert(s[j] == x[j]);
        }
        assert(s[k] == x[k]);
        lemma_first_sep_at(s, sep, k);
        assert(s.take(k) =~= x.take(k));
        assert(s.skip(k + 1) =~= x.skip(k + 1) + seq![c] + y);
        lemma_split_around_query(x.skip(k + 1), c, y);
        assert(seq![x.take(k)] + (split(x.skip(k + 1), sep) + split(y, sep)) =~= seq![x.take(k)] + split(
            x.skip(k + 1),
            sep,
        ) + split(y, sep));
    }
}

/// Whitespace, `,` and `;` each end a term: the terms of two texts joined
/// by one of them are the terms of the first, then those of the second.
pub proof fn lemma_query_terms_split(x: Seq<char>, c: char, y: Seq<char>)
    requires
        splits_query(c),
    ensures
        query_terms_spec(x + seq![c] + y) == query_terms_spec(x) + query_terms_spec(y),
{
    lemma_split_around_query(x, c, y);
    lemma_terms_of_append(split(x, Sep::QueryPunct), split(y, Sep::QueryPunct));
}


/// A ranking puts higher scores first; among equal scores, the id that
/// sorts later in `String` order first; and among equal ids, the earlier
/// entry first. Every entry in it scores above zero.
pub proof fn lemma_ranking_order(sc: Seq<nat>, ids: Seq<Seq<char>>, order: Seq<usize>)
    requires
        is_ranking(sc, ids, order),
    ensures
        forall|k: int| 0 <= k < order.len() ==> sc[#[trigger] order[k] as int] > 0,
        forall|k1: int, k2: int|
            0 <= k1 < k2 < order.len() ==> sc[#[trigger] order[k1] as int] >= sc[#[trigger] order[k2] as int],
        forall|k1: int, k2: int|
            0 <= k1 < k2 < order.len() && sc[#[trigger] order[k1] as int] == sc[#[trigger] order[k2] as int]
                && ids[order[k1] as int] != ids[order[k2] as int] ==> lex_less(ids[order[k2] as int], ids[order[k1] as int]),
        forall|k1: int, k2: int|
            0 <= k1 < k2 < order.len() && sc[#[trigger] order[k1] as int] == sc[#[trigger] order[k2] as int]
                && ids[order[k1] as int] == ids[order[k2] as int] ==> order[k1] < order[k2],
{
    assert forall|k1: int, k2: int| 0 <= k1 < k2 < order.len() implies sc[#[trigger] order[k1] as int] >= sc[#[trigger] order[k2] as int] by {
        assert(ranks_before(sc, ids, order[k1] as int, order[k2] as int));
    }
    assert forall|k1: int, k2: int|
        0 <= k1 < k2 < order.len() && sc[#[trigger] order[k1] as int] == sc[#[trigger] order[k2] as int]
            && ids[order[k1] as int] != ids[order[k2] as int] implies lex_less(ids[order[k2] as int], ids[order[k1] as int]) by {
        assert(ranks_before(sc, ids, order[k1] as int, order[k2] as int));
    }
    assert forall|k1: int, k2: int|
        0 <= k1 < k2 < order.len() && sc[#[trigger] order[k1] as int] == sc[#[trigger] order[k2] as int]
            && ids[order[k1] as int] == ids[order[k2] as int] implies order[k1] < order[k2] by {
        assert(ranks_before(sc, ids, order[k1] as int, order[k2] as int));
        lemma_lex_less_irreflexive(ids[order[k1] as int]);
    }
}

} // verus!
