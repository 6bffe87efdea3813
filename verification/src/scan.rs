//! The lex matcher's logic: gate a block on the rule context, match its
//! start delimiter, scan to its end delimiter applying escapes, then trim
//! and resolve the value.
use vstd::prelude::*;
use crate::block::{
    allows_unknown, consumes, escape_index, escape_lookup, escape_views, lemma_escape_index_first,
    lemma_escape_index_in_range, opt_string_view, strings_hold, Block, BlockModel, FilterModel,
    HooverRuleFilter, HooverRuleSpec, RuleSpecModel,
};
use crate::error::and_into;
use crate::groups::{string_views, views};
use crate::text::{chars_eq, chars_occur_at, chars_of, chars_prefix, js_trim_chars, js_trimmed, occurs_at, string_from_chars};

verus! {

/// The state of the rule the parser is in.
#[derive(Debug, Clone, Copy, PartialEq, Eq)]
pub enum RuleState {
    Open,
    Close,
}

/// What the matcher reads of the rule the parser is in: its parent's
/// name (`None` at the start rule, which has no parent), its own name and
/// its state.
#[derive(Debug, Clone, PartialEq, Eq)]
pub struct RuleContext {
    pub parent: Option<String>,
    pub name: String,
    pub state: RuleState,
}

/// The model of a [`RuleContext`].
pub struct ContextModel {
    pub parent: Option<Seq<char>>,
    pub name: Seq<char>,
    pub state: RuleState,
}

impl View for RuleContext {
    type V = ContextModel;

    open spec fn view(&self) -> ContextModel {
        ContextModel { parent: opt_string_view(self.parent), name: self.name@, state: self.state }
    }
}

/// The slice of the resolved lexer configuration the scan reads: whether
/// value lexing is on, and the sources of the defined values (each source
/// occurs once).
#[derive(Debug, Clone, PartialEq, Eq)]
pub struct MatcherConfig {
    pub value_lex: bool,
    pub definitions: Vec<String>,
}

// ---------------------------------------------------------------------
// Rule context.

/// The name the parent filter reads: the parent's name, or `""` at the
/// start rule (the one entry a list can name it by).
pub open spec fn parent_name(c: ContextModel) -> Seq<char> {
    match c.parent {
        Some(p) => p,
        None => Seq::empty(),
    }
}

/// A filter admits `name` when its include list, if any, holds it and its
/// exclude list, if any, does not.
pub open spec fn filter_admits(f: FilterModel, name: Seq<char>) -> bool {
    &&& match f.included {
        Some(list) => list.contains(name),
        None => true,
    }
    &&& match f.exclude {
        Some(list) => !list.contains(name),
        None => true,
    }
}

/// An optional filter admits `name` when it is absent or admits it.
pub open spec fn opt_filter_admits(f: Option<FilterModel>, name: Seq<char>) -> bool {
    match f {
        Some(f) => filter_admits(f, name),
        None => true,
    }
}

/// The letter of a rule state: `o` for open, `c` for close.
pub open spec fn state_letter(s: RuleState) -> char {
    match s {
        RuleState::Open => 'o',
        RuleState::Close => 'c',
    }
}

/// The states a rule context checks: its `state`, or `"o"` when it has
/// none or there is no rule context.
pub open spec fn checked_states(rule: Option<RuleSpecModel>) -> Seq<char> {
    match rule {
        Some(r) => match r.state {
            Some(s) => s,
            None => seq!['o'],
        },
        None => seq!['o'],
    }
}

/// A rule context admits the parser's rule when its parent filter admits
/// the parent's name, its current filter admits the rule's name, and the
/// rule's state letter is among the checked states (an empty set of
/// checked states is not checked).
pub open spec fn context_admits(rule: Option<RuleSpecModel>, c: ContextModel) -> bool {
    let (parent, current) = match rule {
        Some(r) => (r.parent, r.current),
        None => (None, None),
    };
    &&& opt_filter_admits(parent, parent_name(c))
    &&& opt_filter_admits(current, c.name)
    &&& (checked_states(rule).len() == 0 || checked_states(rule).contains(state_letter(c.state)))
}

/// The rule context of a block's start.
pub open spec fn start_rule(b: BlockModel) -> Option<RuleSpecModel> {
    match b.start {
        Some(s) => s.rule,
        None => None,
    }
}

impl HooverRuleFilter {
    /// AND this filter's verdict on `name` into the tri-state `match_rule`.
    pub fn passes(&self, name: &str, match_rule: &mut Option<bool>)
        ensures
            *final(match_rule) == if self.included is None && self.exclude is None {
                *old(match_rule)
            } else {
                Some(filter_admits(self@, name@) && old(match_rule).unwrap_or(true))
            },
    {
        if let Some(included) = &self.included {
            and_into(match_rule, strings_hold(included, name));
        }
        if let Some(exclude) = &self.exclude {
            and_into(match_rule, !strings_hold(exclude, name));
        }
    }
}

/// Whether the characters of `s` include `c`.
fn str_holds_char(s: &str, c: char) -> (r: bool)
    ensures
        r == s@.contains(c),
{
    let v = chars_of(s);
    let n = v.len();
    let mut i: usize = 0;
    while i < n
        invariant
            n == v@.len(),
            v@ == s@,
            i <= n,
            forall|j: int| 0 <= j < i ==> v@[j] != c,
        decreases n - i,
    {
        if v[i] == c {
            assert(s@[i as int] == c);
            return true;
        }
        i = i + 1;
    }
    false
}

/// Whether a block's rule context admits the parser's rule.
fn rule_matches(rule: Option<&HooverRuleSpec>, ctx: &RuleContext) -> (r: bool)
    ensures
        r == context_admits(
            match rule {
                Some(r) => Some(r@),
                None => None,
            },
            ctx@,
        ),
{
    let ghost model = match rule {
        Some(r) => Some(r@),
        None => None::<RuleSpecModel>,
    };
    // `None` means "no rule condition has been evaluated", which is not the
    // same as "a condition failed": with no conditions the match passes.
    let mut match_rule: Option<bool> = None;
    if let Some(rulespec) = rule {
        assert(model == Some(rulespec@));
        if let Some(parent) = &rulespec.parent {
            assert(rulespec@.parent == Some(parent@));
            let pname: &str = match &ctx.parent {
                Some(p) => p.as_str(),
                None => "",
            };
            proof {
                reveal_strlit("");
            }
            assert(pname@ =~= parent_name(ctx@));
            parent.passes(pname, &mut match_rule);
        }
        if let Some(current) = &rulespec.current {
            assert(rulespec@.current == Some(current@));
            current.passes(ctx.name.as_str(), &mut match_rule);
        }
    }
    let ghost before_state = match_rule.unwrap_or(true);
    assert(before_state == (opt_filter_admits(
        match model {
            Some(r) => r.parent,
            None => None,
        },
        parent_name(ctx@),
    ) && opt_filter_admits(
        match model {
            Some(r) => r.current,
            None => None,
        },
        ctx@.name,
    )));
    // '': don't check; 'oc' | 'c' | 'o' check; default 'o'.
    let rulestate: &str = match rule {
        Some(spec) => match &spec.state {
            Some(s) => s.as_str(),
            None => "o",
        },
        None => "o",
    };
    proof {
        reveal_strlit("o");
    }
    assert(rulestate@ == checked_states(model));
    let states = chars_of(rulestate);
    if states.len() != 0 {
        let letter = match ctx.state {
            RuleState::Open => 'o',
            RuleState::Close => 'c',
        };
        and_into(&mut match_rule, str_holds_char(rulestate, letter));
    }
    match match_rule {
        Some(b) => b,
        None => true,
    }
}

// ---------------------------------------------------------------------
// Start delimiters.

/// The index of the first delimiter of `fixed` that `rest` starts with.
pub open spec fn first_prefix(fixed: Seq<Seq<char>>, rest: Seq<char>) -> Option<int>
    decreases fixed.len(),
{
    if fixed.len() == 0 {
        None
    } else {
        match first_prefix(fixed.drop_last(), rest) {
            Some(k) => Some(k),
            None => if occurs_at(rest, 0, fixed.last()) {
                Some(fixed.len() - 1)
            } else {
                None
            },
        }
    }
}

/// Where a block starts at the front of `rest`: `None` when its rule
/// context does not admit the parser's rule or no fixed start delimiter
/// matches; otherwise the number of characters the start consumes (the
/// first matching delimiter's length when it is consumed, else zero, and
/// zero for a block without fixed start delimiters).
pub open spec fn start_width(rest: Seq<char>, c: ContextModel, b: BlockModel) -> Option<int> {
    if !context_admits(start_rule(b), c) {
        None
    } else {
        match b.start {
            None => Some(0),
            Some(s) => match s.fixed {
                None => Some(0),
                Some(fixed) => match first_prefix(fixed, rest) {
                    None => None,
                    Some(k) => Some(
                        if consumes(s.consume, fixed[k]) {
                            fixed[k].len() as int
                        } else {
                            0
                        },
                    ),
                },
            },
        }
    }
}

proof fn lemma_first_prefix(fixed: Seq<Seq<char>>, rest: Seq<char>, k: int)
    requires
        0 <= k < fixed.len(),
        occurs_at(rest, 0, fixed[k]),
        forall|j: int| 0 <= j < k ==> !occurs_at(rest, 0, #[trigger] fixed[j]),
    ensures
        first_prefix(fixed, rest) == Some(k),
    decreases fixed.len(),
{
    if k < fixed.len() - 1 {
        assert forall|j: int| 0 <= j < k implies !occurs_at(
            rest,
            0,
            #[trigger] fixed.drop_last()[j],
        ) by {
            assert(fixed.drop_last()[j] == fixed[j]);
        }
        lemma_first_prefix(fixed.drop_last(), rest, k);
    } else {
        lemma_first_prefix_none(fixed.drop_last(), rest);
    }
}

proof fn lemma_first_prefix_none(fixed: Seq<Seq<char>>, rest: Seq<char>)
    requires
        forall|j: int| 0 <= j < fixed.len() ==> !occurs_at(rest, 0, #[trigger] fixed[j]),
    ensures
        first_prefix(fixed, rest) is None,
    decreases fixed.len(),
{
    if fixed.len() > 0 {
        assert forall|j: int| 0 <= j < fixed.len() - 1 implies !occurs_at(
            rest,
            0,
            #[trigger] fixed.drop_last()[j],
        ) by {
            assert(fixed.drop_last()[j] == fixed[j]);
        }
        lemma_first_prefix_none(fixed.drop_last(), rest);
    }
}

/// Match a block's start against the rule context and the characters at
/// the cursor. On a match, the number of characters of the consumed start
/// delimiter (zero when it is kept or there is none).
pub fn match_start(rest: &[char], ctx: &RuleContext, block: &Block) -> (r: Option<usize>)
    ensures
        r matches Some(w) ==> start_width(rest@, ctx@, block@) == Some(w as int),
        r is None ==> start_width(rest@, ctx@, block@) is None,
{
    let start = match &block.start {
        Some(s) => Some(s),
        None => None,
    };
    let rule = match start {
        Some(s) => match &s.rule {
            Some(r) => Some(r),
            None => None,
        },
        None => None,
    };
    if !rule_matches(rule, ctx) {
        return None;
    }
    let s = match start {
        Some(s) => s,
        None => {
            return Some(0);
        },
    };
    let fixed = match &s.fixed {
        Some(f) => f,
        None => {
            return Some(0);
        },
    };
    let ghost fixed_views = string_views(fixed@);
    assert(block@.start == Some(s@));
    assert(s@.fixed == Some(fixed_views));
    let n = fixed.len();
    let mut k: usize = 0;
    while k < n
        invariant
            n == fixed@.len(),
            fixed_views == string_views(fixed@),
            block@.start == Some(s@),
            s@.fixed == Some(fixed_views),
            context_admits(start_rule(block@), ctx@),
            k <= n,
            forall|j: int| 0 <= j < k ==> !occurs_at(rest@, 0, #[trigger] fixed_views[j]),
        decreases n - k,
    {
        let delimiter = chars_of(fixed[k].as_str());
        assert(fixed_views[k as int] == fixed@[k as int]@);
        if chars_occur_at(rest, 0, delimiter.as_slice()) {
            proof {
                lemma_first_prefix(fixed_views, rest@, k as int);
            }
            if s.consume.applies_to(fixed[k].as_str()) {
                return Some(delimiter.len());
            } else {
                return Some(0);
            }
        }
        k = k + 1;
    }
    proof {
        lemma_first_prefix_none(fixed_views, rest@);
    }
    None
}

// ---------------------------------------------------------------------
// Scanning to an end delimiter.

/// The first character of `s`, if any.
pub open spec fn first_char(s: Seq<char>) -> Option<char> {
    if s.len() == 0 {
        None
    } else {
        Some(s[0])
    }
}

/// The character of `rest` at `i`, or `None` at (or past) the end.
pub open spec fn char_at(rest: Seq<char>, i: int) -> Option<char> {
    if 0 <= i < rest.len() {
        Some(rest[i])
    } else {
        None
    }
}

/// The index of the first end delimiter whose first character is `cur`
/// (the empty delimiter's first character is `None`, the end of input).
pub open spec fn first_end_with(ends: Seq<Seq<char>>, cur: Option<char>) -> Option<int>
    decreases ends.len(),
{
    if ends.len() == 0 {
        None
    } else {
        match first_end_with(ends.drop_last(), cur) {
            Some(k) => Some(k),
            None => if first_char(ends.last()) == cur {
                Some(ends.len() - 1)
            } else {
                None
            },
        }
    }
}

/// The end delimiter that ends the block at `i`: the first delimiter
/// whose first character is the character at `i`, when all of it occurs
/// there. Only that first delimiter is tried.
pub open spec fn end_at(rest: Seq<char>, i: int, ends: Seq<Seq<char>>) -> Option<int> {
    match first_end_with(ends, char_at(rest, i)) {
        Some(k) => if occurs_at(rest, i, ends[k]) {
            Some(k)
        } else {
            None
        },
        None => None,
    }
}

/// The outcome of scanning a block's body.
pub enum ScanModel {
    /// An end delimiter, `ends[delim]`, was reached at `at`, having read
    /// `value`.
    Done { value: Seq<char>, at: int, delim: int },
    /// A rejected escape; `at` is the index of the escape character.
    BadEscape { at: int },
    /// No end delimiter was reached.
    Unterminated,
}

/// `piece` put in front of the value of a completed scan.
pub open spec fn prepend(piece: Seq<char>, r: ScanModel) -> ScanModel {
    match r {
        ScanModel::Done { value, at, delim } => ScanModel::Done { value: piece + value, at, delim },
        other => other,
    }
}

/// The replacement the escape table maps `e` to. A character outside the
/// Basic Multilingual Plane never matches a key.
pub open spec fn mapped_escape(b: BlockModel, e: char) -> Option<Seq<char>> {
    if (e as u32) <= 0xFFFF {
        escape_lookup(b.escape, seq![e])
    } else {
        None
    }
}

/// What the escape `c e` adds to the value: the mapped replacement; else,
/// when unknown escapes are allowed, `e` (preceded by `c` when the escape
/// character is preserved); else nothing, as the escape is rejected.
pub open spec fn escape_text(b: BlockModel, c: char, e: char) -> Option<Seq<char>> {
    match mapped_escape(b, e) {
        Some(r) => Some(r),
        None => if allows_unknown(b) {
            Some(
                if b.preserve_escape_char {
                    seq![c, e]
                } else {
                    seq![e]
                },
            )
        } else {
            None
        },
    }
}

/// Scan `rest` from `i` for one of the block's end delimiters, applying
/// escapes. An end delimiter is checked before an escape, so an escape
/// character that also starts an end delimiter ends the block; an escape
/// character as the final character has nothing to escape and leaves the
/// block unterminated.
pub open spec fn scan_from(rest: Seq<char>, i: int, b: BlockModel) -> ScanModel
    decreases rest.len() - i,
{
    if i < 0 || i > rest.len() {
        ScanModel::Unterminated
    } else {
        match end_at(rest, i, b.end.fixed) {
            Some(k) => ScanModel::Done { value: Seq::empty(), at: i, delim: k },
            None => if i == rest.len() {
                ScanModel::Unterminated
            } else if b.escape_char == Some(rest[i]) {
                if i + 1 == rest.len() {
                    ScanModel::Unterminated
                } else {
                    match escape_text(b, rest[i], rest[i + 1]) {
                        Some(t) => prepend(t, scan_from(rest, i + 2, b)),
                        None => ScanModel::BadEscape { at: i },
                    }
                }
            } else {
                prepend(seq![rest[i]], scan_from(rest, i + 1, b))
            },
        }
    }
}

/// Why a committed block was rejected.
#[derive(Debug, Clone, Copy, PartialEq, Eq)]
pub enum Rejected {
    /// An escape not in the table, with unknown escapes disallowed; `at`
    /// is the index of the escape character.
    Escape { at: usize },
    /// No end delimiter was reached.
    Unterminated,
}

/// The model of a completed scan's value: a defined value (its index in
/// the definitions) or the text itself.
pub enum ValueModel {
    Defined(int),
    Text(Seq<char>),
}

/// A completed scan's value.
#[derive(Debug, Clone, PartialEq, Eq)]
pub enum ScanValue {
    /// The value defined for the text, by its index in the definitions.
    Defined(usize),
    /// The text itself.
    Text(String),
}

impl View for ScanValue {
    type V = ValueModel;

    open spec fn view(&self) -> ValueModel {
        match self {
            ScanValue::Defined(i) => ValueModel::Defined(*i as int),
            ScanValue::Text(s) => ValueModel::Text(s@),
        }
    }
}

/// The result of a completed scan: the value, and the index in `rest`
/// just past everything the block consumed.
#[derive(Debug, Clone, PartialEq, Eq)]
pub struct Scanned {
    pub value: ScanValue,
    pub end: usize,
}

/// The index of the first definition whose source is `text`.
pub open spec fn definition_index(defs: Seq<Seq<char>>, text: Seq<char>) -> Option<int>
    decreases defs.len(),
{
    if defs.len() == 0 {
        None
    } else {
        match definition_index(defs.drop_last(), text) {
            Some(i) => Some(i),
            None => if defs.last() == text {
                Some(defs.len() - 1)
            } else {
                None
            },
        }
    }
}

/// The value of `text`: the defined value when value lexing is on and a
/// definition's source is `text`, else the text itself.
pub open spec fn resolved(text: Seq<char>, value_lex: bool, defs: Seq<Seq<char>>) -> ValueModel {
    match definition_index(defs, text) {
        Some(i) if value_lex => ValueModel::Defined(i),
        _ => ValueModel::Text(text),
    }
}

/// The hoovered text and end index of a block scanned from `start`: the
/// scanned value (trimmed with the JavaScript trim set when the block
/// trims), and the index just past the end delimiter when the block
/// consumes it, else the index where it begins.
pub open spec fn scan_end(rest: Seq<char>, start: int, b: BlockModel) -> Result<
    (Seq<char>, int),
    Rejected,
> {
    match scan_from(rest, start, b) {
        ScanModel::Done { value, at, delim } => {
            let d = b.end.fixed[delim];
            Ok(
                (
                    if b.trim {
                        js_trimmed(value)
                    } else {
                        value
                    },
                    if consumes(b.end.consume, d) {
                        at + d.len()
                    } else {
                        at
                    },
                ),
            )
        },
        ScanModel::BadEscape { at } => Err(Rejected::Escape { at: at as usize }),
        ScanModel::Unterminated => Err(Rejected::Unterminated),
    }
}

proof fn lemma_prepend_prepend(a: Seq<char>, b: Seq<char>, r: ScanModel)
    ensures
        prepend(a, prepend(b, r)) == prepend(a + b, r),
{
    if let ScanModel::Done { value, at, delim } = r {
        assert(a + (b + value) =~= (a + b) + value);
    }
}

proof fn lemma_prepend_empty(r: ScanModel)
    ensures
        prepend(Seq::empty(), r) == r,
{
    if let ScanModel::Done { value, at, delim } = r {
        assert(Seq::<char>::empty() + value =~= value);
    }
}

proof fn lemma_first_end_with(ends: Seq<Seq<char>>, cur: Option<char>, k: int)
    requires
        0 <= k < ends.len(),
        first_char(ends[k]) == cur,
        forall|j: int| 0 <= j < k ==> first_char(#[trigger] ends[j]) != cur,
    ensures
        first_end_with(ends, cur) == Some(k),
    decreases ends.len(),
{
    if k < ends.len() - 1 {
        assert forall|j: int| 0 <= j < k implies first_char(#[trigger] ends.drop_last()[j])
            != cur by {
            assert(ends.drop_last()[j] == ends[j]);
        }
        lemma_first_end_with(ends.drop_last(), cur, k);
    } else {
        lemma_first_end_with_none(ends.drop_last(), cur);
    }
}

proof fn lemma_first_end_with_none(ends: Seq<Seq<char>>, cur: Option<char>)
    requires
        forall|j: int| 0 <= j < ends.len() ==> first_char(#[trigger] ends[j]) != cur,
    ensures
        first_end_with(ends, cur) is None,
    decreases ends.len(),
{
    if ends.len() > 0 {
        assert forall|j: int| 0 <= j < ends.len() - 1 implies first_char(
            #[trigger] ends.drop_last()[j],
        ) != cur by {
            assert(ends.drop_last()[j] == ends[j]);
        }
        lemma_first_end_with_none(ends.drop_last(), cur);
    }
}

/// The end delimiter found at `i` is one of the delimiters, and all of it
/// occurs there.
proof fn lemma_end_at_occurs(rest: Seq<char>, i: int, ends: Seq<Seq<char>>)
    ensures
        end_at(rest, i, ends) matches Some(k) ==> 0 <= k < ends.len() && occurs_at(
            rest,
            i,
            ends[k],
        ),
{
    lemma_first_end_with_found(ends, char_at(rest, i));
}

/// The end delimiter `first_end_with` finds is one of the delimiters, and
/// its first character is `cur`.
pub proof fn lemma_first_end_with_found(ends: Seq<Seq<char>>, cur: Option<char>)
    ensures
        first_end_with(ends, cur) matches Some(k) ==> 0 <= k < ends.len() && first_char(ends[k])
            == cur,
    decreases ends.len(),
{
    if ends.len() > 0 {
        lemma_first_end_with_found(ends.drop_last(), cur);
        if let Some(k) = first_end_with(ends.drop_last(), cur) {
            assert(ends.drop_last()[k] == ends[k]);
        }
    }
}

/// The characters of each string of `list`.
fn chars_of_each(list: &Vec<String>) -> (r: Vec<Vec<char>>)
    ensures
        views(r@) == string_views(list@),
{
    let n = list.len();
    let mut r: Vec<Vec<char>> = Vec::new();
    let mut i: usize = 0;
    while i < n
        invariant
            n == list@.len(),
            i <= n,
            views(r@) == string_views(list@).take(i as int),
        decreases n - i,
    {
        let v = chars_of(list[i].as_str());
        let ghost before = r@;
        r.push(v);
        assert(views(r@) =~= views(before).push(v@));
        assert(string_views(list@).take(i + 1) =~= string_views(list@).take(i as int).push(
            list@[i as int]@,
        ));
        i = i + 1;
    }
    assert(string_views(list@).take(n as int) =~= string_views(list@));
    r
}

/// Whether two optional characters are equal.
fn same_char(a: Option<char>, b: Option<char>) -> (r: bool)
    ensures
        r == (a == b),
{
    match (a, b) {
        (Some(x), Some(y)) => x == y,
        (None, None) => true,
        _ => false,
    }
}

/// The end delimiter that ends the block at `i`, if any.
fn end_at_exec(rest: &[char], i: usize, ends: &Vec<Vec<char>>) -> (r: Option<usize>)
    requires
        i <= rest@.len(),
    ensures
        r matches Some(k) ==> end_at(rest@, i as int, views(ends@)) == Some(k as int),
        r is None ==> end_at(rest@, i as int, views(ends@)) is None,
{
    let ghost ev = views(ends@);
    let cur: Option<char> = if i < rest.len() {
        Some(rest[i])
    } else {
        None
    };
    assert(cur == char_at(rest@, i as int));
    let n = ends.len();
    let mut k: usize = 0;
    while k < n
        invariant
            n == ends@.len(),
            ev == views(ends@),
            k <= n,
            i <= rest@.len(),
            cur == char_at(rest@, i as int),
            forall|j: int| 0 <= j < k ==> first_char(#[trigger] ev[j]) != cur,
        decreases n - k,
    {
        let d = &ends[k];
        let first: Option<char> = if d.len() == 0 {
            None
        } else {
            Some(d[0])
        };
        assert(ev[k as int] == d@);
        assert(first == first_char(ev[k as int]));
        if same_char(first, cur) {
            proof {
                lemma_first_end_with(ev, cur, k as int);
            }
            if chars_occur_at(rest, i, d.as_slice()) {
                assert(first_end_with(ev, char_at(rest@, i as int)) == Some(k as int));
                assert(occurs_at(rest@, i as int, ev[k as int]));
                assert(end_at(rest@, i as int, ev) == Some(k as int));
                return Some(k);
            } else {
                return None;
            }
        }
        k = k + 1;
    }
    proof {
        lemma_first_end_with_none(ev, cur);
    }
    None
}

/// Whether the string `s` is exactly the one character `c`.
fn is_single_char(s: &String, c: char) -> (r: bool)
    ensures
        r == (s@ == seq![c]),
{
    let v = chars_of(s.as_str());
    if v.len() == 1 && v[0] == c {
        assert(v@ =~= seq![c]);
        true
    } else {
        false
    }
}

/// The replacement the block's escape table maps `e` to.
fn mapped_escape_exec(block: &Block, e: char) -> (r: Option<Vec<char>>)
    ensures
        r matches Some(t) ==> mapped_escape(block@, e) == Some(t@),
        r is None ==> mapped_escape(block@, e) is None,
{
    if (e as u32) > 0xFFFF {
        return None;
    }
    let ghost table = block@.escape;
    let ghost key = seq![e];
    let n = block.escape.len();
    let mut i: usize = 0;
    while i < n
        invariant
            n == block.escape@.len(),
            table == escape_views(block.escape@),
            key == seq![e],
            (e as u32) <= 0xFFFF,
            i <= n,
            forall|j: int| 0 <= j < i ==> #[trigger] table[j].0 != key,
        decreases n - i,
    {
        assert(table[i as int] == (block.escape@[i as int].0@, block.escape@[i as int].1@));
        if is_single_char(&block.escape[i].0, e) {
            proof {
                lemma_escape_index_first(table, key, i as int);
            }
            return Some(chars_of(block.escape[i].1.as_str()));
        }
        i = i + 1;
    }
    proof {
        lemma_escape_index_in_range(table, key);
        if escape_index(table, key) is Some {
            let k = escape_index(table, key)->0;
            assert(table[k].0 != key);
        }
    }
    None
}

/// What the escape `c e` adds to the value, if it is accepted.
fn escape_text_exec(block: &Block, c: char, e: char) -> (r: Option<Vec<char>>)
    ensures
        r matches Some(t) ==> escape_text(block@, c, e) == Some(t@),
        r is None ==> escape_text(block@, c, e) is None,
{
    match mapped_escape_exec(block, e) {
        Some(t) => Some(t),
        None => {
            if block.allow_unknown() {
                let mut t: Vec<char> = Vec::new();
                if block.preserve_escape_char {
                    t.push(c);
                }
                t.push(e);
                if block.preserve_escape_char {
                    assert(t@ =~= seq![c, e]);
                } else {
                    assert(t@ =~= seq![e]);
                }
                Some(t)
            } else {
                None
            }
        },
    }
}

/// Appends the characters of `piece` to `value`.
fn append_chars(value: &mut Vec<char>, piece: &Vec<char>)
    ensures
        final(value)@ == old(value)@ + piece@,
{
    let n = piece.len();
    let mut i: usize = 0;
    while i < n
        invariant
            n == piece@.len(),
            i <= n,
            value@ == old(value)@ + piece@.take(i as int),
        decreases n - i,
    {
        value.push(piece[i]);
        i = i + 1;
        assert(value@ =~= old(value)@ + piece@.take(i as int));
    }
    assert(piece@.take(n as int) =~= piece@);
}

/// The value of `text` under `config`.
pub fn resolve_value(text: &[char], config: &MatcherConfig) -> (v: ScanValue)
    ensures
        v@ == resolved(text@, config.value_lex, string_views(config.definitions@)),
{
    let ghost defs = string_views(config.definitions@);
    if config.value_lex {
        let n = config.definitions.len();
        let mut i: usize = 0;
        while i < n
            invariant
                n == config.definitions@.len(),
                defs == string_views(config.definitions@),
                config.value_lex,
                i <= n,
                definition_index(defs.take(i as int), text@) is None,
            decreases n - i,
        {
            let source = chars_of(config.definitions[i].as_str());
            proof {
                assert(defs.take(i + 1).drop_last() =~= defs.take(i as int));
                assert(defs[i as int] == source@);
                assert(defs.take(i + 1).last() == source@);
            }
            if chars_eq(source.as_slice(), text) {
                proof {
                    lemma_definition_index_prefix(defs, i as int + 1, text@);
                }
                return ScanValue::Defined(i);
            }
            i = i + 1;
        }
        assert(defs.take(n as int) =~= defs);
    }
    ScanValue::Text(string_from_chars(text))
}

/// A definition found in a prefix of the definitions is the first one.
proof fn lemma_definition_index_prefix(defs: Seq<Seq<char>>, m: int, text: Seq<char>)
    requires
        0 <= m <= defs.len(),
        definition_index(defs.take(m), text) is Some,
    ensures
        definition_index(defs, text) == definition_index(defs.take(m), text),
    decreases defs.len() - m,
{
    if m < defs.len() {
        assert(defs.take(m + 1).drop_last() =~= defs.take(m));
        lemma_definition_index_prefix(defs, m + 1, text);
    } else {
        assert(defs.take(m) =~= defs);
    }
}

/// Scan forward from `start` for one of the block's end delimiters,
/// applying escapes, then trim and resolve the value.
pub fn parse_to_end(rest: &[char], start: usize, block: &Block, config: &MatcherConfig) -> (r:
    Result<Scanned, Rejected>)
    requires
        start <= rest@.len(),
    ensures
        r matches Ok(s) ==> scan_end(rest@, start as int, block@) matches Ok((text, end)) && end
            == s.end && s.value@ == resolved(
            text,
            config.value_lex,
            string_views(config.definitions@),
        ),
        r matches Err(e) ==> scan_end(rest@, start as int, block@) == Err::<(Seq<char>, int), _>(
            e,
        ),
{
    let ghost b = block@;
    let ends = chars_of_each(&block.end.fixed);
    let n = rest.len();
    let mut value: Vec<char> = Vec::new();
    let mut index = start;
    proof {
        lemma_prepend_empty(scan_from(rest@, start as int, b));
    }
    let mut delim: usize = 0;
    loop
        invariant
            n == rest@.len(),
            b == block@,
            views(ends@) == b.end.fixed,
            start <= index <= n,
            scan_from(rest@, start as int, b) == prepend(value@, scan_from(rest@, index as int, b)),
        ensures
            end_at(rest@, index as int, b.end.fixed) == Some(delim as int),
        decreases n - index,
    {
        match end_at_exec(rest, index, &ends) {
            Some(k) => {
                delim = k;
                break ;
            },
            None => {},
        }
        if index == n {
            return Err(Rejected::Unterminated);
        }
        let c = rest[index];
        assert(end_at(rest@, index as int, b.end.fixed) is None);
        let is_escape = match block.escape_char {
            Some(e) => e == c,
            None => false,
        };
        if is_escape {
            if index + 1 == n {
                return Err(Rejected::Unterminated);
            }
            let e = rest[index + 1];
            match escape_text_exec(block, c, e) {
                Some(t) => {
                    assert(b.escape_char == Some(rest@[index as int]));
                    assert(scan_from(rest@, index as int, b) == prepend(t@, scan_from(rest@, index + 2, b)));
                    proof {
                        lemma_prepend_prepend(value@, t@, scan_from(rest@, index + 2, b));
                    }
                    append_chars(&mut value, &t);
                    index = index + 2;
                },
                None => {
                    return Err(Rejected::Escape { at: index });
                },
            }
        } else {
            assert(b.escape_char != Some(rest@[index as int]));
            assert(scan_from(rest@, index as int, b) == prepend(seq![c], scan_from(rest@, index + 1, b)));
            proof {
                lemma_prepend_prepend(value@, seq![c], scan_from(rest@, index + 1, b));
            }
            let ghost before = value@;
            value.push(c);
            assert(value@ =~= before + seq![c]);
            index = index + 1;
        }
    }
    proof {
        lemma_end_at_occurs(rest@, index as int, b.end.fixed);
    }
    let ghost delimiter = b.end.fixed[delim as int];
    assert(ends@[delim as int]@ == delimiter);
    assert(block.end.fixed@[delim as int]@ == delimiter);
    assert(scan_from(rest@, index as int, b) == (ScanModel::Done {
        value: Seq::empty(),
        at: index as int,
        delim: delim as int,
    }));
    assert(value@ + Seq::<char>::empty() =~= value@);
    let width = ends[delim].len();
    let end = if block.end.consume.applies_to(block.end.fixed[delim].as_str()) {
        index + width
    } else {
        index
    };
    let text = if block.trim {
        js_trim_chars(value.as_slice())
    } else {
        value
    };
    let resolved_value = resolve_value(text.as_slice(), config);
    Ok(Scanned { value: resolved_value, end })
}

// ---------------------------------------------------------------------
// The matcher.

/// What the matcher produces at the cursor.
#[derive(Debug, Clone, PartialEq, Eq)]
pub enum MatchOutcome {
    /// The block at index `block` matched and hoovered `value`, consuming
    /// `consumed` characters.
    Token { block: usize, value: ScanValue, consumed: usize },
    /// A rejected escape: the bad token spans the escape character at
    /// offset `at` from the cursor.
    InvalidEscape { at: usize },
    /// A committed block never reached an end delimiter: the bad token
    /// spans the `width` characters of the consumed start delimiter.
    InvalidText { width: usize },
}

/// The model of a [`MatchOutcome`].
pub enum OutcomeModel {
    Token { block: int, value: ValueModel, consumed: int },
    InvalidEscape { at: int },
    InvalidText { width: int },
}

impl View for MatchOutcome {
    type V = OutcomeModel;

    open spec fn view(&self) -> OutcomeModel {
        match self {
            MatchOutcome::Token { block, value, consumed } => OutcomeModel::Token {
                block: *block as int,
                value: value@,
                consumed: *consumed as int,
            },
            MatchOutcome::InvalidEscape { at } => OutcomeModel::InvalidEscape { at: *at as int },
            MatchOutcome::InvalidText { width } => OutcomeModel::InvalidText {
                width: *width as int,
            },
        }
    }
}

/// The models of a sequence of blocks.
pub open spec fn block_views(blocks: Seq<Block>) -> Seq<BlockModel> {
    blocks.map_values(|b: Block| b@)
}

/// What block `k` produces once its start matched with width `w`: the
/// hoovered token, or the bad token of a rejected escape or of an
/// unterminated block.
pub open spec fn committed_outcome(
    rest: Seq<char>,
    k: int,
    w: int,
    b: BlockModel,
    value_lex: bool,
    defs: Seq<Seq<char>>,
) -> OutcomeModel {
    match scan_end(rest, w, b) {
        Ok((text, end)) => OutcomeModel::Token {
            block: k,
            value: resolved(text, value_lex, defs),
            consumed: end,
        },
        Err(Rejected::Escape { at }) => OutcomeModel::InvalidEscape { at: at as int },
        Err(Rejected::Unterminated) => OutcomeModel::InvalidText { width: w },
    }
}

/// The matcher's result from block `k` on: the first block whose start
/// matches is committed; with none, nothing.
pub open spec fn match_blocks(
    rest: Seq<char>,
    c: ContextModel,
    blocks: Seq<BlockModel>,
    value_lex: bool,
    defs: Seq<Seq<char>>,
    k: int,
) -> Option<OutcomeModel>
    decreases blocks.len() - k,
{
    if k < 0 || k >= blocks.len() {
        None
    } else {
        match start_width(rest, c, blocks[k]) {
            None => match_blocks(rest, c, blocks, value_lex, defs, k + 1),
            Some(w) => Some(committed_outcome(rest, k, w, blocks[k], value_lex, defs)),
        }
    }
}

/// Whether every fixed start delimiter of `b` has at most `m` characters.
pub open spec fn starts_within(b: BlockModel, m: int) -> bool {
    match b.start {
        Some(s) => match s.fixed {
            Some(fixed) => forall|j: int| 0 <= j < fixed.len() ==> (#[trigger] fixed[j]).len() <= m,
            None => true,
        },
        None => true,
    }
}

/// The length of the longest fixed start delimiter of the blocks.
fn start_window(blocks: &[Block]) -> (m: usize)
    ensures
        forall|k: int| 0 <= k < blocks@.len() ==> starts_within(#[trigger] blocks@[k]@, m as int),
{
    let mut m: usize = 0;
    let n = blocks.len();
    let mut k: usize = 0;
    while k < n
        invariant
            n == blocks@.len(),
            k <= n,
            forall|i: int| 0 <= i < k ==> starts_within(#[trigger] blocks@[i]@, m as int),
        decreases n - k,
    {
        let ghost before = m;
        match &blocks[k].start {
            Some(s) => match &s.fixed {
                Some(fixed) => {
                    let ghost views = string_views(fixed@);
                    let nf = fixed.len();
                    let mut j: usize = 0;
                    while j < nf
                        invariant
                            nf == fixed@.len(),
                            views == string_views(fixed@),
                            j <= nf,
                            before <= m,
                            forall|i: int| 0 <= i < j ==> (#[trigger] views[i]).len() <= m,
                        decreases nf - j,
                    {
                        let len = chars_of(fixed[j].as_str()).len();
                        assert(views[j as int] == fixed@[j as int]@);
                        if len > m {
                            m = len;
                        }
                        j = j + 1;
                    }
                    assert(blocks@[k as int]@.start == Some(s@));
                },
                None => {},
            },
            None => {},
        }
        assert forall|i: int| 0 <= i <= k implies starts_within(#[trigger] blocks@[i]@, m as int) by {
            if i < k {
                lemma_starts_within_grows(blocks@[i]@, before as int, m as int);
            }
        }
        k = k + 1;
    }
    m
}

proof fn lemma_starts_within_grows(b: BlockModel, m1: int, m2: int)
    requires
        starts_within(b, m1),
        m1 <= m2,
    ensures
        starts_within(b, m2),
{
}

/// A block's start reads no further than its longest fixed start
/// delimiter: it matches the same on any prefix of the characters at the
/// cursor that is at least that long (or all of them).
proof fn lemma_start_width_window(rest: Seq<char>, c: ContextModel, b: BlockModel, m: int)
    requires
        0 <= m,
        starts_within(b, m),
    ensures
        start_width(rest.take(if m < rest.len() { m } else { rest.len() as int }), c, b)
            == start_width(rest, c, b),
{
    let w = if m < rest.len() { m } else { rest.len() as int };
    let prefix = rest.take(w);
    if let Some(s) = b.start {
        if let Some(fixed) = s.fixed {
            assert forall|j: int| 0 <= j < fixed.len() implies occurs_at(prefix, 0, #[trigger] fixed[j])
                == occurs_at(rest, 0, fixed[j]) by {
                if fixed[j].len() <= w {
                    assert(prefix.subrange(0, fixed[j].len() as int) =~= rest.subrange(
                        0,
                        fixed[j].len() as int,
                    ));
                }
            }
            lemma_first_prefix_same(fixed, prefix, rest);
        }
    }
}

proof fn lemma_first_prefix_same(fixed: Seq<Seq<char>>, a: Seq<char>, b: Seq<char>)
    requires
        forall|j: int| 0 <= j < fixed.len() ==> occurs_at(a, 0, #[trigger] fixed[j]) == occurs_at(
            b,
            0,
            fixed[j],
        ),
    ensures
        first_prefix(fixed, a) == first_prefix(fixed, b),
    decreases fixed.len(),
{
    if fixed.len() > 0 {
        assert forall|j: int| 0 <= j < fixed.len() - 1 implies occurs_at(
            a,
            0,
            #[trigger] fixed.drop_last()[j],
        ) == occurs_at(b, 0, fixed.drop_last()[j]) by {
            assert(fixed.drop_last()[j] == fixed[j]);
        }
        lemma_first_prefix_same(fixed.drop_last(), a, b);
        assert(occurs_at(a, 0, fixed[fixed.len() - 1]) == occurs_at(b, 0, fixed[fixed.len() - 1]));
    }
}

/// The lex matcher: try each block in order; the first whose start
/// matches is committed. The starts are matched on the characters the
/// longest start delimiter can reach; only a committed block reads on.
pub fn hoover_scan(rest: &str, ctx: &RuleContext, blocks: &[Block], config: &MatcherConfig) -> (r:
    Option<MatchOutcome>)
    ensures
        r matches Some(o) ==> match_blocks(
            rest@,
            ctx@,
            block_views(blocks@),
            config.value_lex,
            string_views(config.definitions@),
            0,
        ) == Some(o@),
        r is None ==> match_blocks(
            rest@,
            ctx@,
            block_views(blocks@),
            config.value_lex,
            string_views(config.definitions@),
            0,
        ) is None,
{
    let window = start_window(blocks);
    let head = chars_prefix(rest, window);
    let ghost bv = block_views(blocks@);
    let ghost defs = string_views(config.definitions@);
    let n = blocks.len();
    let mut k: usize = 0;
    while k < n
        invariant
            n == blocks@.len(),
            bv == block_views(blocks@),
            defs == string_views(config.definitions@),
            head@ == rest@.take(if window < rest@.len() { window as int } else { rest@.len() as int }),
            forall|i: int| 0 <= i < blocks@.len() ==> starts_within(#[trigger] blocks@[i]@, window as int),
            k <= n,
            match_blocks(rest@, ctx@, bv, config.value_lex, defs, 0) == match_blocks(
                rest@,
                ctx@,
                bv,
                config.value_lex,
                defs,
                k as int,
            ),
        decreases n - k,
    {
        let block = &blocks[k];
        assert(bv[k as int] == block@);
        proof {
            assert(starts_within(blocks@[k as int]@, window as int));
            lemma_start_width_window(rest@, ctx@, block@, window as int);
        }
        match match_start(head.as_slice(), ctx, block) {
            None => {},
            Some(start) => {
                proof {
                    lemma_start_width_bound(rest@, ctx@, block@);
                }
                let text = chars_of(rest);
                let outcome = match parse_to_end(text.as_slice(), start, block, config) {
                    Ok(scanned) => MatchOutcome::Token {
                        block: k,
                        value: scanned.value,
                        consumed: scanned.end,
                    },
                    Err(Rejected::Escape { at }) => MatchOutcome::InvalidEscape { at },
                    Err(Rejected::Unterminated) => MatchOutcome::InvalidText { width: start },
                };
                return Some(outcome);
            },
        }
        k = k + 1;
    }
    None
}

/// A start never consumes more than the characters at the cursor.
pub proof fn lemma_start_width_bound(rest: Seq<char>, c: ContextModel, b: BlockModel)
    ensures
        start_width(rest, c, b) matches Some(w) ==> 0 <= w <= rest.len(),
{
    if let Some(s) = b.start {
        if let Some(fixed) = s.fixed {
            if context_admits(start_rule(b), c) {
                lemma_first_prefix_occurs(fixed, rest);
            }
        }
    }
}

/// The start delimiter `first_prefix` finds is one of the delimiters and
/// occurs at the front of `rest`.
pub proof fn lemma_first_prefix_occurs(fixed: Seq<Seq<char>>, rest: Seq<char>)
    ensures
        first_prefix(fixed, rest) matches Some(k) ==> 0 <= k < fixed.len() && occurs_at(
            rest,
            0,
            fixed[k],
        ),
    decreases fixed.len(),
{
    if fixed.len() > 0 {
        lemma_first_prefix_occurs(fixed.drop_last(), rest);
        if let Some(k) = first_prefix(fixed.drop_last(), rest) {
            assert(fixed.drop_last()[k] == fixed[k]);
        }
    }
}

} // verus!
