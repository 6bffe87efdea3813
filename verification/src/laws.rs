//! Properties of the library as a whole: what the matcher promises across
//! blocks, what a scan keeps of the source, and what the trim, escape
//! table and group list operations keep.
use vstd::prelude::*;
use crate::block::{
    consumes, ConsumeModel, escape_index, escape_insert, escape_lookup, lemma_escape_index_first, lemma_escape_index_is_first,
    lemma_escape_index_in_range, BlockModel, FilterModel, RuleSpecModel,
};
use crate::scan::{
    filter_admits, lemma_first_end_with_found, lemma_start_width_bound,
    char_at, committed_outcome, context_admits, definition_index, end_at, escape_text, first_char,
    first_end_with, match_blocks, opt_filter_admits, parent_name, resolved, scan_from, start_width,
    ContextModel, OutcomeModel, RuleState, ScanModel, ValueModel,
};
use crate::groups::{alt_enabled, any_declared, listed_entries, nonempty_trimmed, split_commas};
use crate::install::{alt_text, first_occurrences, hex_digit, joined, json_body, json_escaped, json_quoted};
use crate::json::{
    consume_model, field_of, block_model, end_model, filter_model, lemma_field_of_insert, options_model, rule_model,
    same_ignoring_ascii_case, start_model, JsonValue,
};
use crate::text::{
    is_js_trim_space, is_white_space, js_trimmed, strip, strip_back, strip_front, ws_trimmed,
};

verus! {

// ---------------------------------------------------------------------
// The matcher.

/// Blocks are tried in order and the first whose start matches is
/// committed: when block `k`'s start matches and no earlier block's does,
/// the matcher's result is block `k`'s outcome (its token, or its bad
/// token), never a later block's and never a fall-through.
pub proof fn law_first_matching_block_is_committed(
    rest: Seq<char>,
    c: ContextModel,
    blocks: Seq<BlockModel>,
    value_lex: bool,
    defs: Seq<Seq<char>>,
    k: int,
)
    requires
        0 <= k < blocks.len(),
        start_width(rest, c, blocks[k]) is Some,
        forall|j: int| 0 <= j < k ==> start_width(rest, c, #[trigger] blocks[j]) is None,
    ensures
        match_blocks(rest, c, blocks, value_lex, defs, 0) == Some(
            committed_outcome(
                rest,
                k,
                start_width(rest, c, blocks[k])->0,
                blocks[k],
                value_lex,
                defs,
            ),
        ),
{
    lemma_match_blocks_skip(rest, c, blocks, value_lex, defs, 0, k);
}

proof fn lemma_match_blocks_skip(
    rest: Seq<char>,
    c: ContextModel,
    blocks: Seq<BlockModel>,
    value_lex: bool,
    defs: Seq<Seq<char>>,
    i: int,
    k: int,
)
    requires
        0 <= i <= k <= blocks.len(),
        forall|j: int| 0 <= j < k ==> start_width(rest, c, #[trigger] blocks[j]) is None,
    ensures
        match_blocks(rest, c, blocks, value_lex, defs, i) == match_blocks(
            rest,
            c,
            blocks,
            value_lex,
            defs,
            k,
        ),
    decreases k - i,
{
    if i < k {
        assert(start_width(rest, c, blocks[i]) is None);
        lemma_match_blocks_skip(rest, c, blocks, value_lex, defs, i + 1, k);
    }
}

/// The matcher falls through to the next matcher exactly when no block's
/// start matches.
pub proof fn law_no_start_falls_through(
    rest: Seq<char>,
    c: ContextModel,
    blocks: Seq<BlockModel>,
    value_lex: bool,
    defs: Seq<Seq<char>>,
)
    ensures
        match_blocks(rest, c, blocks, value_lex, defs, 0) is None <==> forall|j: int|
            0 <= j < blocks.len() ==> start_width(rest, c, #[trigger] blocks[j]) is None,
{
    if forall|j: int| 0 <= j < blocks.len() ==> start_width(rest, c, #[trigger] blocks[j]) is None {
        lemma_match_blocks_skip(rest, c, blocks, value_lex, defs, 0, blocks.len() as int);
    } else {
        let k = choose|j: int| 0 <= j < blocks.len() && start_width(rest, c, #[trigger] blocks[j]) is Some;
        lemma_first_start(rest, c, blocks, k);
        let f = choose|f: int|
            0 <= f < blocks.len() && start_width(rest, c, #[trigger] blocks[f]) is Some && forall|j: int|
                0 <= j < f ==> start_width(rest, c, #[trigger] blocks[j]) is None;
        law_first_matching_block_is_committed(rest, c, blocks, value_lex, defs, f);
    }
}

/// When some block's start matches, there is a first such block.
proof fn lemma_first_start(rest: Seq<char>, c: ContextModel, blocks: Seq<BlockModel>, k: int)
    requires
        0 <= k < blocks.len(),
        start_width(rest, c, blocks[k]) is Some,
    ensures
        exists|f: int|
            0 <= f < blocks.len() && start_width(rest, c, #[trigger] blocks[f]) is Some && forall|
                j: int,
            | 0 <= j < f ==> start_width(rest, c, #[trigger] blocks[j]) is None,
    decreases k,
{
    if exists|j: int| 0 <= j < k && start_width(rest, c, #[trigger] blocks[j]) is Some {
        let j = choose|j: int| 0 <= j < k && start_width(rest, c, #[trigger] blocks[j]) is Some;
        lemma_first_start(rest, c, blocks, j);
    } else {
        assert(start_width(rest, c, blocks[k]) is Some && forall|j: int|
            0 <= j < k ==> start_width(rest, c, #[trigger] blocks[j]) is None);
    }
}

/// The matcher stays within the input: a token consumes at most the
/// characters at the cursor, a rejected escape lies among them, and an
/// unterminated block's bad token spans at most them.
pub proof fn law_outcome_within_input(
    rest: Seq<char>,
    c: ContextModel,
    blocks: Seq<BlockModel>,
    value_lex: bool,
    defs: Seq<Seq<char>>,
)
    ensures
        match_blocks(rest, c, blocks, value_lex, defs, 0) matches Some(o) ==> match o {
            OutcomeModel::Token { block, consumed, .. } => 0 <= block < blocks.len() && 0
                <= consumed <= rest.len(),
            OutcomeModel::InvalidEscape { at } => 0 <= at < rest.len(),
            OutcomeModel::InvalidText { width } => 0 <= width <= rest.len(),
        },
{
    lemma_outcome_within_input(rest, c, blocks, value_lex, defs, 0);
}

proof fn lemma_outcome_within_input(
    rest: Seq<char>,
    c: ContextModel,
    blocks: Seq<BlockModel>,
    value_lex: bool,
    defs: Seq<Seq<char>>,
    k: int,
)
    requires
        0 <= k,
    ensures
        match_blocks(rest, c, blocks, value_lex, defs, k) matches Some(o) ==> match o {
            OutcomeModel::Token { block, consumed, .. } => 0 <= block < blocks.len() && 0
                <= consumed <= rest.len(),
            OutcomeModel::InvalidEscape { at } => 0 <= at < rest.len(),
            OutcomeModel::InvalidText { width } => 0 <= width <= rest.len(),
        },
    decreases blocks.len() - k,
{
    if k < blocks.len() {
        match start_width(rest, c, blocks[k]) {
            None => lemma_outcome_within_input(rest, c, blocks, value_lex, defs, k + 1),
            Some(w) => {
                lemma_start_width_bound(rest, c, blocks[k]);
                lemma_scan_within(rest, w, blocks[k]);
                lemma_end_at_within(rest, blocks[k]);
            },
        }
    }
}

/// Where an end delimiter is found, all of it lies within the input.
proof fn lemma_end_at_within(rest: Seq<char>, b: BlockModel)
    ensures
        forall|i: int|
            #![trigger end_at(rest, i, b.end.fixed)]
            0 <= i <= rest.len() && end_at(rest, i, b.end.fixed) is Some ==> {
                let k = end_at(rest, i, b.end.fixed)->0;
                0 <= k < b.end.fixed.len() && i + b.end.fixed[k].len() <= rest.len()
            },
{
    assert forall|i: int|
        #![trigger end_at(rest, i, b.end.fixed)]
        0 <= i <= rest.len() && end_at(rest, i, b.end.fixed) is Some implies {
            let k = end_at(rest, i, b.end.fixed)->0;
            0 <= k < b.end.fixed.len() && i + b.end.fixed[k].len() <= rest.len()
        } by {
        lemma_first_end_with_found(b.end.fixed, char_at(rest, i));
    }
}

/// A scan from a position within the input ends within it.
proof fn lemma_scan_within(rest: Seq<char>, i: int, b: BlockModel)
    requires
        0 <= i <= rest.len(),
    ensures
        match scan_from(rest, i, b) {
            ScanModel::Done { at, delim, .. } => i <= at <= rest.len() && end_at(
                rest,
                at,
                b.end.fixed,
            ) == Some(delim),
            ScanModel::BadEscape { at } => i <= at < rest.len(),
            ScanModel::Unterminated => true,
        },
    decreases rest.len() - i,
{
    if end_at(rest, i, b.end.fixed) is None && i < rest.len() {
        if b.escape_char == Some(rest[i]) {
            if i + 1 < rest.len() {
                lemma_scan_within(rest, i + 2, b);
            }
        } else {
            lemma_scan_within(rest, i + 1, b);
        }
    }
}

// ---------------------------------------------------------------------
// Rule context.

/// With no rule context, a block starts only while the parser's rule is
/// open.
pub proof fn law_default_state_is_open(c: ContextModel)
    ensures
        context_admits(None, c) <==> c.state == RuleState::Open,
{
    if c.state == RuleState::Close {
        assert(!seq!['o'].contains('c')) by {
            assert(seq!['o'][0] == 'o');
        }
    } else {
        assert(seq!['o'][0] == 'o');
    }
}

/// A rule context that turns the state check off (`state: ""`) and sets
/// no filter admits every rule: no condition is no constraint.
pub proof fn law_unchecked_state_without_filters_admits_all(c: ContextModel)
    ensures
        context_admits(
            Some(RuleSpecModel { parent: None, current: None, state: Some(Seq::empty()) }),
            c,
        ),
{
}

// ---------------------------------------------------------------------
// Scanning.

/// Hoovering keeps the source as it is: in a block without an escape
/// character, a completed scan's value is exactly the characters between
/// where the scan began and the end delimiter, spaces and newlines
/// included.
pub proof fn law_scan_value_is_the_source(rest: Seq<char>, i: int, b: BlockModel)
    requires
        b.escape_char is None,
        0 <= i <= rest.len(),
    ensures
        scan_from(rest, i, b) matches ScanModel::Done { value, at, delim } ==> i <= at <= rest.len()
            && value == rest.subrange(i, at),
    decreases rest.len() - i,
{
    if end_at(rest, i, b.end.fixed) is None && i < rest.len() {
        law_scan_value_is_the_source(rest, i + 1, b);
        if let ScanModel::Done { value, at, delim } = scan_from(rest, i + 1, b) {
            assert(seq![rest[i]] + value =~= rest.subrange(i, at));
        }
    } else if end_at(rest, i, b.end.fixed) is Some {
        assert(rest.subrange(i, i) =~= Seq::<char>::empty());
    }
}

/// An end delimiter that is not consumed stays in the stream: after the
/// block's token, the next lexing position begins with it.
pub proof fn law_unconsumed_end_delimiter_stays(rest: Seq<char>, start: int, b: BlockModel)
    requires
        b.end.consume == crate::block::ConsumeModel::Never,
        0 <= start <= rest.len(),
    ensures
        crate::scan::scan_end(rest, start, b) matches Ok((_, end)) ==> end_at(
            rest,
            end,
            b.end.fixed,
        ) is Some,
{
    lemma_scan_within(rest, start, b);
}

/// The end of the input terminates a block: a block without an escape
/// character whose end delimiters include `""` always reaches an end.
pub proof fn law_end_of_input_terminates(rest: Seq<char>, i: int, b: BlockModel)
    requires
        b.escape_char is None,
        b.end.fixed.contains(Seq::<char>::empty()),
        0 <= i <= rest.len(),
    ensures
        scan_from(rest, i, b) is Done,
    decreases rest.len() - i,
{
    if i == rest.len() {
        let ends = b.end.fixed;
        let e = choose|e: int| 0 <= e < ends.len() && ends[e] == Seq::<char>::empty();
        lemma_first_end_with_exists(ends, None, e);
        let k = first_end_with(ends, None)->0;
        lemma_first_end_with_found(ends, None);
        assert(ends[k].len() == 0);
        assert(rest.subrange(i, i) =~= ends[k]);
        assert(end_at(rest, i, ends) == Some(k));
    } else if end_at(rest, i, b.end.fixed) is None {
        law_end_of_input_terminates(rest, i + 1, b);
    }
}

proof fn lemma_first_end_with_exists(ends: Seq<Seq<char>>, cur: Option<char>, e: int)
    requires
        0 <= e < ends.len(),
        first_char(ends[e]) == cur,
    ensures
        first_end_with(ends, cur) is Some,
    decreases ends.len(),
{
    if e < ends.len() - 1 {
        assert(ends.drop_last()[e] == ends[e]);
        lemma_first_end_with_exists(ends.drop_last(), cur, e);
    }
}

// ---------------------------------------------------------------------
// The escape table.

/// What a read gives back of a write: after `key` is mapped to
/// `replacement`, looking `key` up gives `replacement`, and every other
/// key still gives what it gave before.
pub proof fn law_escape_insert_then_lookup(
    table: Seq<(Seq<char>, Seq<char>)>,
    key: Seq<char>,
    replacement: Seq<char>,
    other: Seq<char>,
)
    requires
        other != key,
    ensures
        escape_lookup(escape_insert(table, key, replacement), key) == Some(replacement),
        escape_lookup(escape_insert(table, key, replacement), other) == escape_lookup(table, other),
{
    lemma_escape_index_in_range(table, key);
    lemma_escape_index_in_range(table, other);
    lemma_escape_index_is_first(table, key);
    lemma_escape_index_is_first(table, other);
    let t2 = escape_insert(table, key, replacement);
    match escape_index(table, key) {
        Some(i) => {
            assert forall|j: int| 0 <= j < i implies #[trigger] t2[j].0 != key by {
                assert(t2[j] == table[j]);
            }
            lemma_escape_index_first(t2, key, i);
        },
        None => {
            assert forall|j: int| 0 <= j < table.len() implies #[trigger] t2[j].0 != key by {
                assert(t2[j] == table[j]);
            }
            lemma_escape_index_first(t2, key, table.len() as int);
        },
    }
    lemma_escape_index_in_range(t2, other);
    match escape_index(table, other) {
        Some(i) => {
            assert(t2[i].0 == other);
            assert forall|j: int| 0 <= j < i implies #[trigger] t2[j].0 != other by {
                if j != escape_index(table, key).unwrap_or(-1) {
                    assert(t2[j] == table[j]);
                }
            }
            lemma_escape_index_first(t2, other, i);
        },
        None => {
            if escape_index(t2, other) is Some {
                let m = escape_index(t2, other)->0;
                assert(t2[m].0 == other);
                if m < table.len() {
                    assert(table[m].0 == other);
                }
            }
        },
    }
}

/// Whether no two entries of an escape table have the same key.
pub open spec fn distinct_keys(table: Seq<(Seq<char>, Seq<char>)>) -> bool {
    forall|a: int, b: int| 0 <= a < b < table.len() ==> #[trigger] table[a].0 != #[trigger] table[b].0
}

/// Each key occurs once in an escape table built by insertion: inserting
/// keeps the keys distinct.
pub proof fn law_escape_insert_keeps_keys_distinct(
    table: Seq<(Seq<char>, Seq<char>)>,
    key: Seq<char>,
    replacement: Seq<char>,
)
    requires
        distinct_keys(table),
    ensures
        distinct_keys(escape_insert(table, key, replacement)),
{
    lemma_escape_index_in_range(table, key);
    let t2 = escape_insert(table, key, replacement);
    match escape_index(table, key) {
        Some(i) => {
            assert forall|a: int, b: int| 0 <= a < b < t2.len() implies #[trigger] t2[a].0
                != #[trigger] t2[b].0 by {
                if a != i && b != i {
                    assert(t2[a] == table[a] && t2[b] == table[b]);
                } else if a == i {
                    assert(t2[b] == table[b]);
                    assert(table[a].0 == key);
                } else {
                    assert(t2[a] == table[a]);
                    assert(table[b].0 == key);
                }
            }
        },
        None => {
            assert forall|a: int, b: int| 0 <= a < b < t2.len() implies #[trigger] t2[a].0
                != #[trigger] t2[b].0 by {
                assert(t2[a] == table[a]);
                if b < table.len() {
                    assert(t2[b] == table[b]);
                }
            }
        },
    }
}

// ---------------------------------------------------------------------
// JavaScript trim.

proof fn lemma_strip_front_shape(s: Seq<char>, p: spec_fn(char) -> bool)
    ensures
        exists|lo: int| 0 <= lo <= s.len() && strip_front(s, p) == s.subrange(lo, s.len() as int),
        strip_front(s, p).len() > 0 ==> !p(strip_front(s, p)[0]),
    decreases s.len(),
{
    if s.len() > 0 && p(s[0]) {
        lemma_strip_front_shape(s.drop_first(), p);
        let lo = choose|lo: int|
            0 <= lo <= s.drop_first().len() && strip_front(s.drop_first(), p)
                == s.drop_first().subrange(lo, s.drop_first().len() as int);
        assert(s.drop_first().subrange(lo, s.drop_first().len() as int) =~= s.subrange(
            lo + 1,
            s.len() as int,
        ));
    } else {
        assert(s.subrange(0, s.len() as int) =~= s);
    }
}

proof fn lemma_strip_back_shape(s: Seq<char>, p: spec_fn(char) -> bool)
    ensures
        exists|hi: int| 0 <= hi <= s.len() && strip_back(s, p) == s.subrange(0, hi),
        strip_back(s, p).len() > 0 ==> !p(strip_back(s, p).last()),
        s.len() > 0 && !p(s[0]) ==> strip_back(s, p).len() > 0 && strip_back(s, p)[0] == s[0],
    decreases s.len(),
{
    if s.len() > 0 && p(s.last()) {
        lemma_strip_back_shape(s.drop_last(), p);
        let hi = choose|hi: int|
            0 <= hi <= s.drop_last().len() && strip_back(s.drop_last(), p)
                == s.drop_last().subrange(0, hi);
        assert(s.drop_last().subrange(0, hi) =~= s.subrange(0, hi));
    } else {
        assert(s.subrange(0, s.len() as int) =~= s);
    }
}

proof fn lemma_strip_fixed(s: Seq<char>, p: spec_fn(char) -> bool)
    requires
        s.len() > 0 ==> !p(s[0]) && !p(s.last()),
    ensures
        strip(s, p) == s,
{
}

/// `strip` keeps a contiguous part of its input whose ends are not
/// stripped, and stripping that part again changes nothing.
proof fn lemma_strip_shape(s: Seq<char>, p: spec_fn(char) -> bool)
    ensures
        exists|lo: int, hi: int| 0 <= lo <= hi <= s.len() && strip(s, p) == s.subrange(lo, hi),
        strip(s, p).len() > 0 ==> !p(strip(s, p)[0]) && !p(strip(s, p).last()),
        strip(strip(s, p), p) == strip(s, p),
{
    let f = strip_front(s, p);
    lemma_strip_front_shape(s, p);
    lemma_strip_back_shape(f, p);
    let lo = choose|lo: int| 0 <= lo <= s.len() && f == s.subrange(lo, s.len() as int);
    let hi = choose|hi: int| 0 <= hi <= f.len() && strip_back(f, p) == f.subrange(0, hi);
    assert(f.subrange(0, hi) =~= s.subrange(lo, lo + hi));
    lemma_strip_fixed(strip(s, p), p);
}

/// JavaScript's trim removes exactly its set from the ends: the trimmed
/// value is a contiguous part of the untrimmed value, neither its first nor its
/// last character is in the trim set, and trimming it again changes
/// nothing.
pub proof fn law_js_trim(s: Seq<char>)
    ensures
        exists|lo: int, hi: int| 0 <= lo <= hi <= s.len() && js_trimmed(s) == s.subrange(lo, hi),
        js_trimmed(s).len() > 0 ==> !is_js_trim_space(js_trimmed(s)[0]) && !is_js_trim_space(
            js_trimmed(s).last(),
        ),
        js_trimmed(js_trimmed(s)) == js_trimmed(s),
{
    lemma_strip_shape(s, |c: char| is_js_trim_space(c));
}

// ---------------------------------------------------------------------
// Group lists.

/// Whether `s` has no comma.
pub open spec fn comma_free(s: Seq<char>) -> bool {
    !s.contains(',')
}

/// Whether every entry of a group list is a non-empty, comma-free word
/// without leading or trailing White_Space: what the engine's reading of
/// a group list yields.
pub open spec fn clean_entries(list: Seq<Seq<char>>) -> bool {
    forall|i: int|
        0 <= i < list.len() ==> (#[trigger] list[i]).len() > 0 && comma_free(list[i])
            && ws_trimmed(list[i]) == list[i]
}

proof fn lemma_split_comma_free(s: Seq<char>)
    ensures
        forall|i: int| 0 <= i < split_commas(s).len() ==> comma_free(#[trigger] split_commas(s)[i]),
        split_commas(s).len() >= 1,
    decreases s.len(),
{
    if s.len() > 0 {
        let init = split_commas(s.drop_last());
        lemma_split_comma_free(s.drop_last());
        if s.last() != ',' {
            let last = init.last().push(s.last());
            assert(comma_free(last)) by {
                if last.contains(',') {
                    let k = choose|k: int| 0 <= k < last.len() && last[k] == ',';
                    assert(init.last()[k] == ',');
                }
            }
            assert forall|i: int| 0 <= i < split_commas(s).len() implies comma_free(
                #[trigger] split_commas(s)[i],
            ) by {
                if i < init.len() - 1 {
                    assert(split_commas(s)[i] == init[i]);
                }
            }
        } else {
            assert forall|i: int| 0 <= i < split_commas(s).len() implies comma_free(
                #[trigger] split_commas(s)[i],
            ) by {
                if i < init.len() {
                    assert(split_commas(s)[i] == init[i]);
                } else {
                    assert(split_commas(s)[i] =~= Seq::<char>::empty());
                }
            }
        }
    }
}

proof fn lemma_split_append_plain(s: Seq<char>, t: Seq<char>)
    requires
        comma_free(t),
    ensures
        split_commas(s + t) == split_commas(s).update(
            split_commas(s).len() - 1,
            split_commas(s).last() + t,
        ),
    decreases t.len(),
{
    lemma_split_comma_free(s);
    if t.len() == 0 {
        assert(s + t =~= s);
        assert(split_commas(s).last() + t =~= split_commas(s).last());
        assert(split_commas(s).update(split_commas(s).len() - 1, split_commas(s).last())
            =~= split_commas(s));
    } else {
        let u = t.drop_last();
        assert(comma_free(u)) by {
            if u.contains(',') {
                let k = choose|k: int| 0 <= k < u.len() && u[k] == ',';
                assert(t[k] == ',');
            }
        }
        lemma_split_append_plain(s, u);
        assert((s + t).drop_last() =~= s + u);
        assert((s + t).last() == t.last());
        assert(t.last() != ',') by {
            assert(t[t.len() - 1] == t.last());
        }
        let su = split_commas(s + u);
        lemma_split_comma_free(s + u);
        assert(su.last() =~= split_commas(s).last() + u);
        assert(su.last().push(t.last()) =~= split_commas(s).last() + t);
        assert(split_commas(s + t) =~= split_commas(s).update(
            split_commas(s).len() - 1,
            split_commas(s).last() + t,
        ));
    }
}

proof fn lemma_split_joined(list: Seq<Seq<char>>)
    requires
        list.len() >= 1,
        forall|i: int| 0 <= i < list.len() ==> comma_free(#[trigger] list[i]),
    ensures
        split_commas(joined(list, seq![','])) == list,
    decreases list.len(),
{
    if list.len() == 1 {
        lemma_split_append_plain(Seq::empty(), list[0]);
        assert(Seq::<char>::empty() + list[0] =~= list[0]);
        assert(split_commas(Seq::<char>::empty()) =~= seq![Seq::<char>::empty()]);
        assert(Seq::<char>::empty() + list[0] =~= list[0]);
        assert(seq![Seq::<char>::empty()].update(0, Seq::<char>::empty() + list[0]) =~= list);
    } else {
        let init = list.drop_last();
        assert forall|i: int| 0 <= i < init.len() implies comma_free(#[trigger] init[i]) by {
            assert(init[i] == list[i]);
        }
        lemma_split_joined(init);
        let head = joined(init, seq![',']) + seq![','];
        assert(head.drop_last() =~= joined(init, seq![',']));
        assert(head.last() == ',');
        assert(split_commas(head) == init.push(Seq::<char>::empty()));
        assert(comma_free(list.last()));
        lemma_split_append_plain(head, list.last());
        assert(joined(list, seq![',']) =~= head + list.last());
        assert(Seq::<char>::empty() + list.last() =~= list.last());
        assert(init.push(Seq::<char>::empty()).update(init.len() as int, list.last()) =~= list);
    }
}

proof fn lemma_nonempty_trimmed_clean(list: Seq<Seq<char>>)
    requires
        clean_entries(list),
    ensures
        nonempty_trimmed(list) == list,
    decreases list.len(),
{
    if list.len() > 0 {
        let init = list.drop_last();
        assert forall|i: int| 0 <= i < init.len() implies (#[trigger] init[i]).len() > 0
            && comma_free(init[i]) && ws_trimmed(init[i]) == init[i] by {
            assert(init[i] == list[i]);
        }
        lemma_nonempty_trimmed_clean(init);
        assert(ws_trimmed(list.last()) == list.last());
        assert(init.push(list.last()) =~= list);
    }
}

proof fn lemma_nonempty_trimmed_is_clean(pieces: Seq<Seq<char>>)
    requires
        forall|i: int| 0 <= i < pieces.len() ==> comma_free(#[trigger] pieces[i]),
    ensures
        clean_entries(nonempty_trimmed(pieces)),
    decreases pieces.len(),
{
    if pieces.len() > 0 {
        let init = pieces.drop_last();
        assert forall|i: int| 0 <= i < init.len() implies comma_free(#[trigger] init[i]) by {
            assert(init[i] == pieces[i]);
        }
        lemma_nonempty_trimmed_is_clean(init);
        let p = |c: char| is_white_space(c);
        let t = ws_trimmed(pieces.last());
        lemma_strip_shape(pieces.last(), p);
        assert(comma_free(pieces.last()));
        assert(comma_free(t)) by {
            let (lo, hi) = choose|lo: int, hi: int|
                0 <= lo <= hi <= pieces.last().len() && t == pieces.last().subrange(lo, hi);
            if t.contains(',') {
                let k = choose|k: int| 0 <= k < t.len() && t[k] == ',';
                assert(pieces.last()[lo + k] == ',');
            }
        }
        let out = nonempty_trimmed(pieces);
        if t.len() > 0 {
            assert forall|i: int| 0 <= i < out.len() implies (#[trigger] out[i]).len() > 0
                && comma_free(out[i]) && ws_trimmed(out[i]) == out[i] by {
                if i < out.len() - 1 {
                    assert(out[i] == nonempty_trimmed(init)[i]);
                }
            }
        }
    }
}

/// The empty list holds no entries.
proof fn lemma_listed_nothing()
    ensures
        joined(Seq::<Seq<char>>::empty(), seq![',']) == Seq::<char>::empty(),
        listed_entries(Seq::<char>::empty()) == Seq::<Seq<char>>::empty(),
{
    let e = Seq::<char>::empty();
    let pieces = seq![e];
    assert(split_commas(e) =~= pieces);
    assert(strip_front(e, |c: char| is_white_space(c)) == e);
    assert(strip_back(e, |c: char| is_white_space(c)) == e);
    assert(ws_trimmed(e).len() == 0);
    assert(pieces.drop_last() =~= Seq::<Seq<char>>::empty());
    assert(nonempty_trimmed(Seq::<Seq<char>>::empty()) == Seq::<Seq<char>>::empty());
    assert(pieces.last() == e);
    assert(nonempty_trimmed(pieces) == nonempty_trimmed(pieces.drop_last()));
}

/// The entries the engine reads from a group list are non-empty,
/// comma-free and trimmed.
pub proof fn law_listed_entries_are_clean(s: Seq<char>)
    ensures
        clean_entries(listed_entries(s)),
{
    lemma_split_comma_free(s);
    lemma_nonempty_trimmed_is_clean(split_commas(s));
}

/// Re-reading a group list joined by commas gives back its entries: the
/// host's include tags, joined into the groups an alternate carries, are
/// read back as exactly those tags.
pub proof fn law_listed_joined_roundtrip(list: Seq<Seq<char>>)
    requires
        clean_entries(list),
    ensures
        listed_entries(joined(list, ","@)) == list,
{
    reveal_strlit(",");
    assert(","@ =~= seq![',']);
    if list.len() == 0 {
        lemma_listed_nothing();
    } else {
        assert forall|i: int| 0 <= i < list.len() implies comma_free(#[trigger] list[i]) by {}
        lemma_split_joined(list);
        lemma_nonempty_trimmed_clean(list);
    }
}

/// The alternate hoover adds carries the host's include tags, so the
/// host's alt filter keeps it exactly when the host does not also exclude
/// one of those tags.
pub proof fn law_alternate_survives_unless_excluded(incl: Seq<char>, excl: Seq<char>)
    ensures
        alt_enabled(joined(listed_entries(incl), ","@), incl, excl) == !any_declared(
            listed_entries(incl),
            listed_entries(excl),
        ),
{
    let tags = listed_entries(incl);
    law_listed_entries_are_clean(incl);
    law_listed_joined_roundtrip(tags);
    if tags.len() > 0 {
        assert(tags.contains(tags[0]));
        assert(any_declared(tags, tags));
    }
    if incl.len() == 0 && excl.len() == 0 {
        lemma_listed_nothing();
        assert(!any_declared(tags, listed_entries(excl)));
    }
}

// ---------------------------------------------------------------------
// Filters and alternates.

/// An absent list imposes no constraint; an empty include list is a
/// constraint nothing satisfies, an empty exclude list one everything
/// satisfies.
pub proof fn law_filter_lists(name: Seq<char>, list: Option<Seq<Seq<char>>>)
    ensures
        filter_admits(FilterModel { included: None, exclude: None }, name),
        !filter_admits(FilterModel { included: Some(Seq::empty()), exclude: list }, name),
        filter_admits(FilterModel { included: None, exclude: Some(Seq::empty()) }, name),
{
}

/// Whether the first occurrences of `names` include one named `n`.
pub open spec fn named_by_first(names: Seq<Seq<char>>, n: Seq<char>) -> bool {
    exists|f: int|
        0 <= f < first_occurrences(names).len() && names[#[trigger] first_occurrences(names)[f]]
            == n
}

proof fn lemma_first_occurrences_range(names: Seq<Seq<char>>)
    ensures
        forall|f: int|
            0 <= f < first_occurrences(names).len() ==> 0 <= #[trigger] first_occurrences(names)[f]
                < names.len(),
    decreases names.len(),
{
    if names.len() > 0 {
        let init = names.drop_last();
        lemma_first_occurrences_range(init);
        let fi = first_occurrences(init);
        let fo = first_occurrences(names);
        assert forall|f: int| 0 <= f < fo.len() implies 0 <= #[trigger] fo[f] < names.len() by {
            if f < fi.len() {
                assert(fo[f] == fi[f]);
            }
        }
    }
}

proof fn lemma_first_occurrences_distinct(names: Seq<Seq<char>>)
    ensures
        forall|a: int, b: int|
            0 <= a < b < first_occurrences(names).len() ==> names[#[trigger] first_occurrences(
                names,
            )[a]] != names[#[trigger] first_occurrences(names)[b]],
    decreases names.len(),
{
    if names.len() > 0 {
        let init = names.drop_last();
        lemma_first_occurrences_distinct(init);
        lemma_first_occurrences_range(init);
        let fi = first_occurrences(init);
        let fo = first_occurrences(names);
        assert forall|a: int, b: int| 0 <= a < b < fo.len() implies names[#[trigger] fo[a]]
            != names[#[trigger] fo[b]] by {
            assert(names[fi[a]] == init[fi[a]]);
            if b < fi.len() {
                assert(names[fi[b]] == init[fi[b]]);
            } else {
                assert(!init.contains(names.last()));
                assert(fo[b] == names.len() - 1);
                if names[fo[a]] == names[fo[b]] {
                    assert(init[fi[a]] == names.last());
                }
            }
        }
    }
}

proof fn lemma_first_occurrences_cover(names: Seq<Seq<char>>)
    ensures
        forall|i: int| 0 <= i < names.len() ==> named_by_first(names, #[trigger] names[i]),
    decreases names.len(),
{
    if names.len() > 0 {
        let init = names.drop_last();
        lemma_first_occurrences_cover(init);
        lemma_first_occurrences_range(init);
        let fi = first_occurrences(init);
        let fo = first_occurrences(names);
        assert forall|k: int| 0 <= k < init.len() implies named_by_first(names, init[k]) by {
            assert(named_by_first(init, init[k]));
            let f = choose|f: int| 0 <= f < fi.len() && init[#[trigger] fi[f]] == init[k];
            assert(fo[f] == fi[f]);
            assert(names[fo[f]] == init[fi[f]]);
        }
        assert forall|i: int| 0 <= i < names.len() implies named_by_first(names, #[trigger] names[i]) by {
            if i < names.len() - 1 {
                assert(init[i] == names[i]);
            } else if init.contains(names.last()) {
                let j = choose|j: int| 0 <= j < init.len() && init[j] == names.last();
                assert(named_by_first(names, init[j]));
            } else {
                assert(fo[fo.len() - 1] == i);
            }
        }
    }
}

/// One `val` alternate per distinct token name: the first occurrences
/// name each token exactly once, and every block's token is among them.
pub proof fn law_one_alternate_per_token_name(names: Seq<Seq<char>>)
    ensures
        forall|f: int|
            0 <= f < first_occurrences(names).len() ==> 0 <= #[trigger] first_occurrences(names)[f]
                < names.len(),
        forall|a: int, b: int|
            0 <= a < b < first_occurrences(names).len() ==> names[#[trigger] first_occurrences(
                names,
            )[a]] != names[#[trigger] first_occurrences(names)[b]],
        forall|i: int| 0 <= i < names.len() ==> named_by_first(names, #[trigger] names[i]),
{
    lemma_first_occurrences_range(names);
    lemma_first_occurrences_distinct(names);
    lemma_first_occurrences_cover(names);
}

// ---------------------------------------------------------------------
// Unknown keys.

/// Whether `k` is, ignoring ASCII case, a key a block object is read by.
pub open spec fn block_key(k: Seq<char>) -> bool {
    ||| same_ignoring_ascii_case(k, "name"@)
    ||| same_ignoring_ascii_case(k, "token"@)
    ||| same_ignoring_ascii_case(k, "escapeChar"@)
    ||| same_ignoring_ascii_case(k, "escape"@)
    ||| same_ignoring_ascii_case(k, "allowUnknownEscape"@)
    ||| same_ignoring_ascii_case(k, "preserveEscapeChar"@)
    ||| same_ignoring_ascii_case(k, "trim"@)
    ||| same_ignoring_ascii_case(k, "start"@)
    ||| same_ignoring_ascii_case(k, "end"@)
}

/// Unknown keys are ignored: adding to a block object, anywhere among its
/// members, a member whose key is none of the block's keys even ignoring
/// ASCII case reads as the same block (or the same error).
pub proof fn law_unknown_block_keys_are_ignored(
    before: Vec<(String, JsonValue)>,
    after: Vec<(String, JsonValue)>,
    j: int,
    extra: (String, JsonValue),
)
    requires
        0 <= j <= before@.len(),
        after@ == before@.insert(j, extra),
        !block_key(extra.0@),
    ensures
        block_model(JsonValue::Object(after)) == block_model(JsonValue::Object(before)),
{
    let m = before@;
    lemma_field_of_insert(m, j, extra, "name"@);
    lemma_field_of_insert(m, j, extra, "token"@);
    lemma_field_of_insert(m, j, extra, "escapeChar"@);
    lemma_field_of_insert(m, j, extra, "escape"@);
    lemma_field_of_insert(m, j, extra, "allowUnknownEscape"@);
    lemma_field_of_insert(m, j, extra, "preserveEscapeChar"@);
    lemma_field_of_insert(m, j, extra, "trim"@);
    lemma_field_of_insert(m, j, extra, "start"@);
    lemma_field_of_insert(m, j, extra, "end"@);
}

/// Whether `k` is, ignoring ASCII case, a key of the options object.
pub open spec fn options_key(k: Seq<char>) -> bool {
    same_ignoring_ascii_case(k, "block"@) || same_ignoring_ascii_case(k, "lex"@)
}

/// Unknown keys of the options object are ignored.
pub proof fn law_unknown_option_keys_are_ignored(
    before: Vec<(String, JsonValue)>,
    after: Vec<(String, JsonValue)>,
    j: int,
    extra: (String, JsonValue),
)
    requires
        0 <= j <= before@.len(),
        after@ == before@.insert(j, extra),
        !options_key(extra.0@),
    ensures
        options_model(JsonValue::Object(after)) == options_model(JsonValue::Object(before)),
{
    lemma_field_of_insert(before@, j, extra, "block"@);
    lemma_field_of_insert(before@, j, extra, "lex"@);
}

/// Unknown keys of a block's `start` object (other than `fixed`,
/// `consume` and `rule`, ignoring ASCII case) are ignored.
pub proof fn law_unknown_start_keys_are_ignored(
    members: Seq<(String, JsonValue)>,
    j: int,
    extra: (String, JsonValue),
    label: Seq<char>,
)
    requires
        0 <= j <= members.len(),
        !same_ignoring_ascii_case(extra.0@, "fixed"@),
        !same_ignoring_ascii_case(extra.0@, "consume"@),
        !same_ignoring_ascii_case(extra.0@, "rule"@),
    ensures
        start_model(members.insert(j, extra), label) == start_model(members, label),
{
    lemma_field_of_insert(members, j, extra, "fixed"@);
    lemma_field_of_insert(members, j, extra, "consume"@);
    lemma_field_of_insert(members, j, extra, "rule"@);
}

/// Unknown keys of a block's `end` object (other than `fixed` and
/// `consume`, ignoring ASCII case) are ignored.
pub proof fn law_unknown_end_keys_are_ignored(
    members: Seq<(String, JsonValue)>,
    j: int,
    extra: (String, JsonValue),
    label: Seq<char>,
)
    requires
        0 <= j <= members.len(),
        !same_ignoring_ascii_case(extra.0@, "fixed"@),
        !same_ignoring_ascii_case(extra.0@, "consume"@),
    ensures
        end_model(members.insert(j, extra), label) == end_model(members, label),
{
    lemma_field_of_insert(members, j, extra, "fixed"@);
    lemma_field_of_insert(members, j, extra, "consume"@);
}

/// Unknown keys of a rule-context object (other than `parent`, `current`
/// and `state`, ignoring ASCII case) are ignored.
pub proof fn law_unknown_rule_keys_are_ignored(
    before: Vec<(String, JsonValue)>,
    after: Vec<(String, JsonValue)>,
    j: int,
    extra: (String, JsonValue),
    label: Seq<char>,
)
    requires
        0 <= j <= before@.len(),
        after@ == before@.insert(j, extra),
        !same_ignoring_ascii_case(extra.0@, "parent"@),
        !same_ignoring_ascii_case(extra.0@, "current"@),
        !same_ignoring_ascii_case(extra.0@, "state"@),
    ensures
        rule_model(JsonValue::Object(after), label) == rule_model(JsonValue::Object(before), label),
{
    lemma_field_of_insert(before@, j, extra, "parent"@);
    lemma_field_of_insert(before@, j, extra, "current"@);
    lemma_field_of_insert(before@, j, extra, "state"@);
}

/// Unknown keys of a filter object (other than its include and exclude
/// lists, ignoring ASCII case) are ignored.
pub proof fn law_unknown_filter_keys_are_ignored(
    before: Vec<(String, JsonValue)>,
    after: Vec<(String, JsonValue)>,
    j: int,
    extra: (String, JsonValue),
    label: Seq<char>,
)
    requires
        0 <= j <= before@.len(),
        after@ == before@.insert(j, extra),
        !same_ignoring_ascii_case(extra.0@, "include"@),
        !same_ignoring_ascii_case(extra.0@, "exclude"@),
    ensures
        filter_model(JsonValue::Object(after), label) == filter_model(
            JsonValue::Object(before),
            label,
        ),
{
    lemma_field_of_insert(before@, j, extra, "include"@);
    lemma_field_of_insert(before@, j, extra, "exclude"@);
}

// ---------------------------------------------------------------------
// JSON string literals.

/// The value of a hexadecimal digit.
pub open spec fn hex_value(h: char) -> Option<int> {
    if '0' <= h && h <= '9' {
        Some(h as int - '0' as int)
    } else if 'a' <= h && h <= 'f' {
        Some(h as int - 'a' as int + 10)
    } else if 'A' <= h && h <= 'F' {
        Some(h as int - 'A' as int + 10)
    } else {
        None
    }
}

/// The character four hexadecimal digits name, for a code outside the
/// surrogate range (halves of a surrogate pair are not read here).
pub open spec fn unit_char(t: Seq<char>) -> Option<char> {
    match (hex_value(t[0]), hex_value(t[1]), hex_value(t[2]), hex_value(t[3])) {
        (Some(a), Some(b), Some(c), Some(d)) => {
            let v = 4096 * a + 256 * b + 16 * c + d;
            if 0xD800 <= v && v <= 0xDFFF {
                None
            } else {
                Some(v as char)
            }
        },
        _ => None,
    }
}

/// The character a two-character escape `\e` stands for.
pub open spec fn short_escape(e: char) -> Option<char> {
    if e == '"' {
        Some('"')
    } else if e == '\\' {
        Some('\\')
    } else if e == '/' {
        Some('/')
    } else if e == 'b' {
        Some('\u{8}')
    } else if e == 'f' {
        Some('\u{c}')
    } else if e == 'n' {
        Some('\n')
    } else if e == 'r' {
        Some('\r')
    } else if e == 't' {
        Some('\t')
    } else {
        None
    }
}

/// `piece` in front of a decoded text.
pub open spec fn in_front(piece: Seq<char>, r: Option<Seq<char>>) -> Option<Seq<char>> {
    match r {
        Some(t) => Some(piece + t),
        None => None,
    }
}

/// The text the inside of a JSON string literal stands for: its
/// characters, with escapes replaced; `None` where it holds a raw quote,
/// a raw control character or a malformed escape.
pub open spec fn json_unescaped(t: Seq<char>) -> Option<Seq<char>>
    decreases t.len(),
{
    if t.len() == 0 {
        Some(Seq::empty())
    } else if t[0] == '"' || (t[0] as u32) < 0x20 {
        None
    } else if t[0] != '\\' {
        in_front(seq![t[0]], json_unescaped(t.drop_first()))
    } else if t.len() < 2 {
        None
    } else {
        match short_escape(t[1]) {
            Some(c) => in_front(seq![c], json_unescaped(t.skip(2))),
            None => if t[1] == 'u' && t.len() >= 6 {
                match unit_char(t.subrange(2, 6)) {
                    Some(c) => in_front(seq![c], json_unescaped(t.skip(6))),
                    None => None,
                }
            } else {
                None
            },
        }
    }
}

/// The text a JSON string literal stands for.
pub open spec fn json_string_value(literal: Seq<char>) -> Option<Seq<char>> {
    if literal.len() >= 2 && literal[0] == '"' && literal.last() == '"' {
        json_unescaped(literal.subrange(1, literal.len() - 1))
    } else {
        None
    }
}

proof fn lemma_unescaped_concat(x: Seq<char>, y: Seq<char>)
    requires
        json_unescaped(x) is Some,
        json_unescaped(y) is Some,
    ensures
        json_unescaped(x + y) == Some(json_unescaped(x)->0 + json_unescaped(y)->0),
    decreases x.len(),
{
    let xy = x + y;
    if x.len() == 0 {
        assert(xy =~= y);
        assert(Seq::<char>::empty() + json_unescaped(y)->0 =~= json_unescaped(y)->0);
    } else {
        assert(xy[0] == x[0]);
        if x[0] != '\\' {
            assert(xy.drop_first() =~= x.drop_first() + y);
            lemma_unescaped_concat(x.drop_first(), y);
            let dx = json_unescaped(x.drop_first())->0;
            assert(seq![x[0]] + (dx + json_unescaped(y)->0) =~= (seq![x[0]] + dx) + json_unescaped(
                y,
            )->0);
        } else {
            assert(xy[1] == x[1]);
            match short_escape(x[1]) {
                Some(c) => {
                    assert(xy.skip(2) =~= x.skip(2) + y);
                    lemma_unescaped_concat(x.skip(2), y);
                    let dx = json_unescaped(x.skip(2))->0;
                    assert(seq![c] + (dx + json_unescaped(y)->0) =~= (seq![c] + dx)
                        + json_unescaped(y)->0);
                },
                None => {
                    assert(xy.subrange(2, 6) =~= x.subrange(2, 6));
                    assert(xy.skip(6) =~= x.skip(6) + y);
                    lemma_unescaped_concat(x.skip(6), y);
                    let c = unit_char(x.subrange(2, 6))->0;
                    let dx = json_unescaped(x.skip(6))->0;
                    assert(seq![c] + (dx + json_unescaped(y)->0) =~= (seq![c] + dx)
                        + json_unescaped(y)->0);
                },
            }
        }
    }
}

proof fn lemma_hex_digit(d: int)
    requires
        0 <= d < 16,
    ensures
        hex_value(hex_digit(d)) == Some(d),
        (hex_digit(d) as u32) >= 0x30,
{
    let digits = seq!['0', '1', '2', '3', '4', '5', '6', '7', '8', '9', 'a', 'b', 'c', 'd', 'e', 'f'];
    assert(hex_digit(d) == digits[d]);
    if d == 0 { assert(digits[0] == '0'); }
    else if d == 1 { assert(digits[1] == '1'); }
    else if d == 2 { assert(digits[2] == '2'); }
    else if d == 3 { assert(digits[3] == '3'); }
    else if d == 4 { assert(digits[4] == '4'); }
    else if d == 5 { assert(digits[5] == '5'); }
    else if d == 6 { assert(digits[6] == '6'); }
    else if d == 7 { assert(digits[7] == '7'); }
    else if d == 8 { assert(digits[8] == '8'); }
    else if d == 9 { assert(digits[9] == '9'); }
    else if d == 10 { assert(digits[10] == 'a'); }
    else if d == 11 { assert(digits[11] == 'b'); }
    else if d == 12 { assert(digits[12] == 'c'); }
    else if d == 13 { assert(digits[13] == 'd'); }
    else if d == 14 { assert(digits[14] == 'e'); }
    else { assert(digits[15] == 'f'); }
}

proof fn lemma_escaped_decodes(c: char)
    ensures
        json_unescaped(json_escaped(c)) == Some(seq![c]),
        forall|i: int| 0 <= i < json_escaped(c).len() ==> (json_escaped(c)[i] as u32) >= 0x20,
{
    let t = json_escaped(c);
    assert(json_unescaped(Seq::<char>::empty()) == Some(Seq::<char>::empty()));
    if c == '"' || c == '\\' || c == '\n' || c == '\r' || c == '\t' {
        assert(t.skip(2) =~= Seq::<char>::empty());
        assert(seq![c] + Seq::<char>::empty() =~= seq![c]);
    } else if (c as u32) < 0x20 {
        let code = c as u32;
        let hi = (code / 16) as int;
        let lo = (code % 16) as int;
        lemma_hex_digit(hi);
        lemma_hex_digit(lo);
        assert(hex_value('0') == Some(0int));
        let u = t.subrange(2, 6);
        assert(u =~= seq!['0', '0', hex_digit(hi), hex_digit(lo)]);
        assert(4096 * 0 + 256 * 0 + 16 * hi + lo == c as int);
        assert(((c as int) as char) == c);
        assert(unit_char(u) == Some(c));
        assert(short_escape('u') is None);
        assert(t.skip(6) =~= Seq::<char>::empty());
        assert(seq![c] + Seq::<char>::empty() =~= seq![c]);
    } else {
        assert(t.drop_first() =~= Seq::<char>::empty());
        assert(seq![c] + Seq::<char>::empty() =~= seq![c]);
    }
}

proof fn lemma_body_decodes(s: Seq<char>)
    ensures
        json_unescaped(json_body(s)) == Some(s),
        forall|i: int| 0 <= i < json_body(s).len() ==> (json_body(s)[i] as u32) >= 0x20,
    decreases s.len(),
{
    if s.len() == 0 {
        assert(json_body(s) =~= Seq::<char>::empty());
        assert(s =~= Seq::<char>::empty());
    } else {
        let init = s.drop_last();
        lemma_body_decodes(init);
        lemma_escaped_decodes(s.last());
        lemma_unescaped_concat(json_body(init), json_escaped(s.last()));
        assert(init + seq![s.last()] =~= s);
        let b = json_body(s);
        assert forall|i: int| 0 <= i < b.len() implies (b[i] as u32) >= 0x20 by {
            if i < json_body(init).len() {
                assert(b[i] == json_body(init)[i]);
            } else {
                assert(b[i] == json_escaped(s.last())[i - json_body(init).len()]);
            }
        }
    }
}

/// A JSON string literal as the grammar document writes one stands for
/// exactly the text it was made from: it is quoted, holds no control
/// character, copies every character but the quote, the backslash and
/// the control characters as it is, and reads back as the text.
pub proof fn law_json_string_round_trips(s: Seq<char>)
    ensures
        json_quoted(s).len() >= 2,
        json_quoted(s)[0] == '"',
        json_quoted(s).last() == '"',
        forall|i: int| 0 <= i < json_quoted(s).len() ==> (json_quoted(s)[i] as u32) >= 0x20,
        forall|c: char| c != '"' && c != '\\' && (c as u32) >= 0x20 ==> #[trigger] json_escaped(c) == seq![c],
        json_string_value(json_quoted(s)) == Some(s),
{
    lemma_body_decodes(s);
    let q = json_quoted(s);
    let b = json_body(s);
    assert(q.subrange(1, q.len() - 1) =~= b);
    assert forall|i: int| 0 <= i < q.len() implies (q[i] as u32) >= 0x20 by {
        if 0 < i < q.len() - 1 {
            assert(q[i] == b[i - 1]);
        }
    }
}

// ---------------------------------------------------------------------
// Resolving a value.

/// Where `definition_index` points: at a definition whose source is
/// exactly `text`, the first such; and it points nowhere only when no
/// source is `text`.
proof fn lemma_definition_index_exact(defs: Seq<Seq<char>>, text: Seq<char>)
    ensures
        definition_index(defs, text) matches Some(i) ==> 0 <= i < defs.len() && defs[i] == text
            && forall|j: int| 0 <= j < i ==> #[trigger] defs[j] != text,
        definition_index(defs, text) is None ==> forall|j: int|
            0 <= j < defs.len() ==> #[trigger] defs[j] != text,
    decreases defs.len(),
{
    if defs.len() > 0 {
        lemma_definition_index_exact(defs.drop_last(), text);
        assert forall|j: int| 0 <= j < defs.len() - 1 implies #[trigger] defs[j]
            == defs.drop_last()[j] by {}
    }
}

/// A hoovered text resolves to a defined value only when value lexing is
/// on and the text is exactly that definition's source (the first such),
/// never a text that merely resembles it, such as one differing in case;
/// a text equal to no source, or any text with value lexing off, stays
/// the text itself; and with value lexing on, a text equal to some source
/// always resolves to a defined value.
pub proof fn law_value_resolves_only_to_its_exact_source(
    text: Seq<char>,
    value_lex: bool,
    defs: Seq<Seq<char>>,
)
    ensures
        resolved(text, value_lex, defs) matches ValueModel::Defined(i) ==> value_lex && 0 <= i
            < defs.len() && defs[i] == text && forall|j: int|
            0 <= j < i ==> #[trigger] defs[j] != text,
        !value_lex ==> resolved(text, value_lex, defs) == ValueModel::Text(text),
        (forall|j: int| 0 <= j < defs.len() ==> #[trigger] defs[j] != text) ==> resolved(
            text,
            value_lex,
            defs,
        ) == ValueModel::Text(text),
        value_lex && (exists|j: int| 0 <= j < defs.len() && #[trigger] defs[j] == text) ==> resolved(
            text,
            value_lex,
            defs,
        ) is Defined,
{
    lemma_definition_index_exact(defs, text);
    if definition_index(defs, text) is Some {
        let i = definition_index(defs, text)->0;
        assert(defs[i] == text);
    }
}

// ---------------------------------------------------------------------
// The rule state a rule context checks.

/// A rule context that sets no state checks the open state, as if it had
/// set `"o"`: the block starts only while the parser's rule is open (and
/// its filters admit the rule), never while it is closing.
pub proof fn law_unset_state_checks_open(r: RuleSpecModel, c: ContextModel)
    requires
        r.state is None,
    ensures
        context_admits(Some(r), c) ==> c.state == RuleState::Open,
        context_admits(Some(r), c) <==> (opt_filter_admits(r.parent, parent_name(c))
            && opt_filter_admits(r.current, c.name) && c.state == RuleState::Open),
        context_admits(Some(r), c) == context_admits(
            Some(RuleSpecModel { parent: r.parent, current: r.current, state: Some(seq!['o']) }),
            c,
        ),
{
    assert(seq!['o'][0] == 'o');
    if c.state == RuleState::Close {
        assert(!seq!['o'].contains('c'));
    } else {
        assert(seq!['o'].contains('o'));
    }
}

/// A rule context that sets a state checks the parser's rule state
/// against it: `o` admits an open rule, `c` a closing one, and an empty
/// state checks nothing; the filters are checked either way.
pub proof fn law_set_state_is_checked(r: RuleSpecModel, s: Seq<char>, c: ContextModel)
    requires
        r.state == Some(s),
    ensures
        context_admits(Some(r), c) <==> (opt_filter_admits(r.parent, parent_name(c))
            && opt_filter_admits(r.current, c.name) && (s.len() == 0 || s.contains(
            if c.state == RuleState::Open {
                'o'
            } else {
                'c'
            },
        ))),
{
}

// ---------------------------------------------------------------------
// Reading `consume`.

/// A `consume` member that is absent, `null` or `true` reads as
/// consume-all: the matched delimiter is consumed, whichever it is; only
/// `false` reads as consume-nothing.
pub proof fn law_consume_true_consumes_all(members: Seq<(String, JsonValue)>, label: Seq<char>)
    ensures
        (field_of(members, "consume"@) is None || field_of(members, "consume"@) matches Some(
            JsonValue::Null,
        ) || field_of(members, "consume"@) matches Some(JsonValue::Bool(true))) ==> consume_model(
            members,
            label,
        ) == Ok::<ConsumeModel, Seq<char>>(ConsumeModel::All) && forall|d: Seq<char>|
            consumes(ConsumeModel::All, d),
        field_of(members, "consume"@) matches Some(JsonValue::Bool(false)) ==> consume_model(
            members,
            label,
        ) == Ok::<ConsumeModel, Seq<char>>(ConsumeModel::Never) && forall|d: Seq<char>|
            !consumes(ConsumeModel::Never, d),
{
}

// ---------------------------------------------------------------------
// Escapes.

/// An escape in the table adds exactly its replacement (that of the first
/// entry for it), whatever `preserve_escape_char` says: the escape
/// character is kept only for an escape that is not in the table.
pub proof fn law_mapped_escape_adds_only_its_replacement(b: BlockModel, c: char, e: char, i: int)
    requires
        (e as u32) <= 0xFFFF,
        0 <= i < b.escape.len(),
        b.escape[i].0 == seq![e],
        forall|j: int| 0 <= j < i ==> #[trigger] b.escape[j].0 != seq![e],
    ensures
        escape_text(b, c, e) == Some(b.escape[i].1),
{
    lemma_escape_index_first(b.escape, seq![e], i);
}

/// An escape not in the table (or outside the Basic Multilingual Plane)
/// is rejected when unknown escapes are disallowed; else it adds the
/// escaped character, preceded by the escape character exactly when
/// `preserve_escape_char` is set.
pub proof fn law_unknown_escape(b: BlockModel, c: char, e: char)
    requires
        (e as u32) > 0xFFFF || forall|j: int| 0 <= j < b.escape.len() ==> #[trigger] b.escape[j].0
            != seq![e],
    ensures
        b.allow_unknown_escape == Some(false) ==> escape_text(b, c, e) is None,
        b.allow_unknown_escape != Some(false) && b.preserve_escape_char ==> escape_text(b, c, e)
            == Some(seq![c, e]),
        b.allow_unknown_escape != Some(false) && !b.preserve_escape_char ==> escape_text(b, c, e)
            == Some(seq![e]),
{
    lemma_escape_index_in_range(b.escape, seq![e]);
    if (e as u32) <= 0xFFFF && escape_index(b.escape, seq![e]) is Some {
        let k = escape_index(b.escape, seq![e])->0;
        assert(b.escape[k].0 == seq![e]);
    }
}

// ---------------------------------------------------------------------
// Alternates.

/// With an action, the alternate carries the action reference right after
/// the token, whatever the groups: it is the alternate without the action
/// with `,"a":` and the quoted reference inserted after the token part,
/// and so exactly that much longer.
pub proof fn law_alternate_carries_the_action(
    token: Seq<char>,
    action: Seq<char>,
    groups: Seq<char>,
)
    ensures
        ({
            let head = "{\"s\":"@ + json_quoted(token);
            let without = alt_text(token, None, groups);
            &&& without.take(head.len() as int) == head
            &&& alt_text(token, Some(action), groups) == head + (",\"a\":"@ + json_quoted(action))
                + without.skip(head.len() as int)
            &&& alt_text(token, Some(action), groups).len() == without.len() + ",\"a\":"@.len()
                + json_quoted(action).len()
        }),
{
    let head = "{\"s\":"@ + json_quoted(token);
    let act = ",\"a\":"@ + json_quoted(action);
    let group_part = if groups.len() == 0 {
        Seq::<char>::empty()
    } else {
        ",\"g\":"@ + json_quoted(groups)
    };
    let tail = group_part + "}"@;
    let without = alt_text(token, None, groups);
    assert(without =~= head + tail);
    assert(without.take(head.len() as int) =~= head);
    assert(without.skip(head.len() as int) =~= tail);
    assert(alt_text(token, Some(action), groups) =~= head + act + tail);
}

/// The alternate carries the host's groups as its last member exactly
/// when there are any: with groups it ends with `,"g":`, the quoted
/// groups and `}`; without, it is the token part, the action part and
/// `}` alone.
pub proof fn law_alternate_carries_the_groups(
    token: Seq<char>,
    action: Option<Seq<char>>,
    groups: Seq<char>,
)
    ensures
        ({
            let head = "{\"s\":"@ + json_quoted(token);
            let act = match action {
                Some(a) => ",\"a\":"@ + json_quoted(a),
                None => Seq::<char>::empty(),
            };
            let group_part = ",\"g\":"@ + json_quoted(groups);
            &&& groups.len() == 0 ==> alt_text(token, action, groups) == head + act + "}"@
            &&& groups.len() > 0 ==> alt_text(token, action, groups) == head + act + group_part
                + "}"@
        }),
{
    let head = "{\"s\":"@ + json_quoted(token);
    let act = match action {
        Some(a) => ",\"a\":"@ + json_quoted(a),
        None => Seq::<char>::empty(),
    };
    if groups.len() == 0 {
        assert(alt_text(token, action, groups) =~= head + act + "}"@);
    }
}

} // verus!
