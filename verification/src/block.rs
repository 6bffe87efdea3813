//! Block definitions: delimiters, consumption, rule context and escapes.
use vstd::prelude::*;
use crate::groups::string_views;
use crate::text::str_eq;

verus! {

/// The views of a slice of string slices.
pub open spec fn str_views(v: Seq<&str>) -> Seq<Seq<char>> {
    v.map_values(|x: &str| x@)
}

/// The view of an optional list of strings.
pub open spec fn opt_views(v: Option<Vec<String>>) -> Option<Seq<Seq<char>>> {
    match v {
        Some(list) => Some(string_views(list@)),
        None => None,
    }
}

/// Owned copies of the given names, in order.
pub fn owned_names(names: &[&str]) -> (r: Vec<String>)
    ensures
        string_views(r@) == str_views(names@),
{
    let n = names.len();
    let mut r: Vec<String> = Vec::new();
    let mut i: usize = 0;
    while i < n
        invariant
            n == names@.len(),
            i <= n,
            string_views(r@) == str_views(names@).take(i as int),
        decreases n - i,
    {
        let s = names[i].to_owned();
        let ghost before = r@;
        r.push(s);
        assert(string_views(r@) =~= string_views(before).push(s@));
        assert(str_views(names@).take(i + 1) =~= str_views(names@).take(i as int).push(
            names@[i as int]@,
        ));
        i = i + 1;
    }
    assert(str_views(names@).take(n as int) =~= str_views(names@));
    r
}

/// Include and exclude lists for one side of a rule-context filter.
///
/// An absent list imposes no constraint; an empty list is a constraint
/// that nothing satisfies (`included`) or everything satisfies
/// (`exclude`).
#[derive(Debug, Clone, Default, PartialEq, Eq)]
pub struct HooverRuleFilter {
    pub included: Option<Vec<String>>,
    pub exclude: Option<Vec<String>>,
}

/// The model of a [`HooverRuleFilter`].
pub struct FilterModel {
    pub included: Option<Seq<Seq<char>>>,
    pub exclude: Option<Seq<Seq<char>>>,
}

impl View for HooverRuleFilter {
    type V = FilterModel;

    open spec fn view(&self) -> FilterModel {
        FilterModel { included: opt_views(self.included), exclude: opt_views(self.exclude) }
    }
}

impl HooverRuleFilter {
    /// A filter that passes only the named rules.
    pub fn include_only(names: &[&str]) -> (f: Self)
        ensures
            f@.included == Some(str_views(names@)),
            f@.exclude is None,
    {
        HooverRuleFilter { included: Some(owned_names(names)), exclude: None }
    }

    /// A filter that rejects the named rules.
    pub fn exclude(names: &[&str]) -> (f: Self)
        ensures
            f@.included is None,
            f@.exclude == Some(str_views(names@)),
    {
        HooverRuleFilter { included: None, exclude: Some(owned_names(names)) }
    }
}

/// The rule context a block start is gated on: filters on the current
/// rule and its parent, plus the rule state.
///
/// `state` selects which rule states match: `"o"`, `"c"` or `"oc"` check
/// the state; `None` defaults to `"o"` (open); `Some("")` means do not
/// check the state at all.
#[derive(Debug, Clone, Default, PartialEq, Eq)]
pub struct HooverRuleSpec {
    pub parent: Option<HooverRuleFilter>,
    pub current: Option<HooverRuleFilter>,
    pub state: Option<String>,
}

/// The model of a [`HooverRuleSpec`].
pub struct RuleSpecModel {
    pub parent: Option<FilterModel>,
    pub current: Option<FilterModel>,
    pub state: Option<Seq<char>>,
}

pub open spec fn opt_filter_view(f: Option<HooverRuleFilter>) -> Option<FilterModel> {
    match f {
        Some(f) => Some(f@),
        None => None,
    }
}

pub open spec fn opt_string_view(s: Option<String>) -> Option<Seq<char>> {
    match s {
        Some(s) => Some(s@),
        None => None,
    }
}

impl View for HooverRuleSpec {
    type V = RuleSpecModel;

    open spec fn view(&self) -> RuleSpecModel {
        RuleSpecModel {
            parent: opt_filter_view(self.parent),
            current: opt_filter_view(self.current),
            state: opt_string_view(self.state),
        }
    }
}

/// Whether a matched delimiter is consumed (removed from the value and
/// the stream) or left in place.
#[derive(Debug, Clone, Default, PartialEq, Eq)]
pub enum Consume {
    /// Consume every matched delimiter (the default).
    #[default]
    All,
    /// Consume nothing: the delimiter stays in the stream, and a start
    /// delimiter becomes part of the value.
    Never,
    /// Consume only the listed delimiters.
    Only(Vec<String>),
}

/// The model of a [`Consume`].
pub enum ConsumeModel {
    All,
    Never,
    Only(Seq<Seq<char>>),
}

impl View for Consume {
    type V = ConsumeModel;

    open spec fn view(&self) -> ConsumeModel {
        match self {
            Consume::All => ConsumeModel::All,
            Consume::Never => ConsumeModel::Never,
            Consume::Only(list) => ConsumeModel::Only(string_views(list@)),
        }
    }
}

/// Whether `consume` consumes the matched delimiter `delimiter`.
pub open spec fn consumes(consume: ConsumeModel, delimiter: Seq<char>) -> bool {
    match consume {
        ConsumeModel::All => true,
        ConsumeModel::Never => false,
        ConsumeModel::Only(list) => list.contains(delimiter),
    }
}

/// Whether `list` holds a string with the characters `wanted`.
pub fn strings_hold(list: &Vec<String>, wanted: &str) -> (r: bool)
    ensures
        r == string_views(list@).contains(wanted@),
{
    let n = list.len();
    let mut i: usize = 0;
    while i < n
        invariant
            n == list@.len(),
            i <= n,
            forall|j: int| 0 <= j < i ==> list@[j]@ != wanted@,
        decreases n - i,
    {
        if str_eq(list[i].as_str(), wanted) {
            assert(string_views(list@)[i as int] == wanted@);
            return true;
        }
        i = i + 1;
    }
    assert forall|j: int| 0 <= j < string_views(list@).len() implies string_views(list@)[j]
        != wanted@ by {
        assert(string_views(list@)[j] == list@[j]@);
    }
    false
}

impl Consume {
    /// Whether a matched `delimiter` is consumed.
    pub fn applies_to(&self, delimiter: &str) -> (r: bool)
        ensures
            r == consumes(self@, delimiter@),
    {
        match self {
            Consume::All => true,
            Consume::Never => false,
            Consume::Only(list) => strings_hold(list, delimiter),
        }
    }
}

/// How a block starts: optional fixed delimiters, whether a matched one
/// is consumed, and the rule context the start is gated on.
///
/// With no `fixed` delimiters the block starts wherever its rule context
/// matches.
#[derive(Debug, Clone, Default, PartialEq, Eq)]
pub struct StartSpec {
    pub fixed: Option<Vec<String>>,
    pub consume: Consume,
    pub rule: Option<HooverRuleSpec>,
}

/// The model of a [`StartSpec`].
pub struct StartModel {
    pub fixed: Option<Seq<Seq<char>>>,
    pub consume: ConsumeModel,
    pub rule: Option<RuleSpecModel>,
}

pub open spec fn opt_rule_view(r: Option<HooverRuleSpec>) -> Option<RuleSpecModel> {
    match r {
        Some(r) => Some(r@),
        None => None,
    }
}

impl View for StartSpec {
    type V = StartModel;

    open spec fn view(&self) -> StartModel {
        StartModel {
            fixed: opt_views(self.fixed),
            consume: self.consume@,
            rule: opt_rule_view(self.rule),
        }
    }
}

/// How a block ends: the delimiters it scans for, and whether a matched
/// one is consumed. The empty string `""` names the end of the input.
#[derive(Debug, Clone, Default, PartialEq, Eq)]
pub struct EndSpec {
    pub fixed: Vec<String>,
    pub consume: Consume,
}

/// The model of an [`EndSpec`].
pub struct EndModel {
    pub fixed: Seq<Seq<char>>,
    pub consume: ConsumeModel,
}

impl View for EndSpec {
    type V = EndModel;

    open spec fn view(&self) -> EndModel {
        EndModel { fixed: string_views(self.fixed@), consume: self.consume@ }
    }
}

/// One block definition. Blocks are tried in the order they are listed,
/// so that order is significant.
///
/// Once a block's start matches, the block is committed: failing to
/// reach an end delimiter is an `invalid_text` error and a rejected
/// escape is an `invalid_escape` error, never a fall-through to the next
/// block or matcher.
#[derive(Debug, Clone, Default, PartialEq, Eq)]
pub struct Block {
    /// The block name, carried on every token it emits as `use.block`.
    pub name: String,
    pub start: Option<StartSpec>,
    pub end: EndSpec,
    /// The token name the block emits; `None` means `#HV`.
    pub token: Option<String>,
    /// The escape character, when the block has one.
    pub escape_char: Option<char>,
    /// Replacements for escaped characters, keyed by the character
    /// following the escape character. Lookup takes the first entry of a
    /// key; [`Block::with_escape`] replaces the entry of a key it already
    /// holds, so a table it builds holds each key once.
    pub escape: Vec<(String, String)>,
    /// Whether an escape absent from `escape` is allowed (the escape
    /// character is dropped, or kept with `preserve_escape_char`); `None`
    /// means `true`.
    pub allow_unknown_escape: Option<bool>,
    /// Keep the escape character in the value for an unknown escape.
    pub preserve_escape_char: bool,
    /// Trim the hoovered value with the JavaScript `String.prototype.trim`
    /// character set.
    pub trim: bool,
}

/// The model of a [`Block`].
pub struct BlockModel {
    pub name: Seq<char>,
    pub start: Option<StartModel>,
    pub end: EndModel,
    pub token: Option<Seq<char>>,
    pub escape_char: Option<char>,
    pub escape: Seq<(Seq<char>, Seq<char>)>,
    pub allow_unknown_escape: Option<bool>,
    pub preserve_escape_char: bool,
    pub trim: bool,
}

pub open spec fn opt_start_view(s: Option<StartSpec>) -> Option<StartModel> {
    match s {
        Some(s) => Some(s@),
        None => None,
    }
}

/// The views of an escape table.
pub open spec fn escape_views(v: Seq<(String, String)>) -> Seq<(Seq<char>, Seq<char>)> {
    v.map_values(|e: (String, String)| (e.0@, e.1@))
}

impl View for Block {
    type V = BlockModel;

    open spec fn view(&self) -> BlockModel {
        BlockModel {
            name: self.name@,
            start: opt_start_view(self.start),
            end: self.end@,
            token: opt_string_view(self.token),
            escape_char: self.escape_char,
            escape: escape_views(self.escape@),
            allow_unknown_escape: self.allow_unknown_escape,
            preserve_escape_char: self.preserve_escape_char,
            trim: self.trim,
        }
    }
}

/// The index of the first entry of `table` whose key is `key`.
pub open spec fn escape_index(table: Seq<(Seq<char>, Seq<char>)>, key: Seq<char>) -> Option<int>
    decreases table.len(),
{
    if table.len() == 0 {
        None
    } else {
        match escape_index(table.drop_last(), key) {
            Some(i) => Some(i),
            None => if table.last().0 == key {
                Some(table.len() - 1)
            } else {
                None
            },
        }
    }
}

/// The replacement `table` holds for `key`.
pub open spec fn escape_lookup(table: Seq<(Seq<char>, Seq<char>)>, key: Seq<char>) -> Option<
    Seq<char>,
> {
    match escape_index(table, key) {
        Some(i) => Some(table[i].1),
        None => None,
    }
}

/// `table` with `key` mapped to `replacement`: the entry of `key` is
/// replaced where there is one, else a new entry is added at the end.
pub open spec fn escape_insert(
    table: Seq<(Seq<char>, Seq<char>)>,
    key: Seq<char>,
    replacement: Seq<char>,
) -> Seq<(Seq<char>, Seq<char>)> {
    match escape_index(table, key) {
        Some(i) => table.update(i, (key, replacement)),
        None => table.push((key, replacement)),
    }
}

/// The token name a block emits: `token`, or `#HV` when it has none.
pub open spec fn token_name_of(b: BlockModel) -> Seq<char> {
    match b.token {
        Some(t) => t,
        None => crate::DEFAULT_TOKEN@,
    }
}

/// Whether unknown escapes are allowed: `allow_unknown_escape`, `true`
/// when unset.
pub open spec fn allows_unknown(b: BlockModel) -> bool {
    match b.allow_unknown_escape {
        Some(a) => a,
        None => true,
    }
}

/// The model of an empty block named `name`.
pub open spec fn empty_block(name: Seq<char>) -> BlockModel {
    BlockModel {
        name,
        start: None,
        end: EndModel { fixed: Seq::empty(), consume: ConsumeModel::All },
        token: None,
        escape_char: None,
        escape: Seq::empty(),
        allow_unknown_escape: None,
        preserve_escape_char: false,
        trim: false,
    }
}

/// The model of a default start: no fixed delimiters, consume all, no
/// rule context.
pub open spec fn default_start() -> StartModel {
    StartModel { fixed: None, consume: ConsumeModel::All, rule: None }
}

pub proof fn lemma_escape_index_in_range(table: Seq<(Seq<char>, Seq<char>)>, key: Seq<char>)
    ensures
        escape_index(table, key) matches Some(i) ==> 0 <= i < table.len() && table[i].0 == key,
        escape_index(table, key) is None ==> forall|j: int|
            0 <= j < table.len() ==> #[trigger] table[j].0 != key,
    decreases table.len(),
{
    if table.len() > 0 {
        lemma_escape_index_in_range(table.drop_last(), key);
        assert forall|j: int| 0 <= j < table.len() - 1 implies #[trigger] table[j]
            == table.drop_last()[j] by {}
    }
}

/// No entry before the one `escape_index` finds has the key.
pub proof fn lemma_escape_index_is_first(table: Seq<(Seq<char>, Seq<char>)>, key: Seq<char>)
    ensures
        escape_index(table, key) matches Some(i) ==> forall|j: int|
            0 <= j < i ==> #[trigger] table[j].0 != key,
    decreases table.len(),
{
    if table.len() > 0 {
        lemma_escape_index_is_first(table.drop_last(), key);
        lemma_escape_index_in_range(table.drop_last(), key);
        if let Some(i) = escape_index(table, key) {
            assert forall|j: int| 0 <= j < i implies #[trigger] table[j].0 != key by {
                assert(table[j] == table.drop_last()[j]);
            }
        }
    }
}

impl Block {
    /// A block named `name` with no delimiters; fill the fields in.
    pub fn new(name: &str) -> (b: Self)
        ensures
            b@ == empty_block(name@),
    {
        let b = Block {
            name: name.to_owned(),
            start: None,
            end: EndSpec { fixed: Vec::new(), consume: Consume::All },
            token: None,
            escape_char: None,
            escape: Vec::new(),
            allow_unknown_escape: None,
            preserve_escape_char: false,
            trim: false,
        };
        assert(b@.end.fixed =~= Seq::<Seq<char>>::empty());
        assert(b@.escape =~= Seq::<(Seq<char>, Seq<char>)>::empty());
        b
    }

    /// A block bounded by one fixed start and one fixed end delimiter,
    /// both consumed.
    pub fn delimited(name: &str, start: &str, end: &str) -> (b: Self)
        ensures
            b@ == (BlockModel {
                start: Some(StartModel { fixed: Some(seq![start@]), ..default_start() }),
                end: EndModel { fixed: seq![end@], consume: ConsumeModel::All },
                ..empty_block(name@)
            }),
    {
        let starts: [&str; 1] = [start];
        let ends: [&str; 1] = [end];
        let b = Self::new(name).with_start(&starts).with_end(&ends);
        assert(str_views(starts@) =~= seq![start@]);
        assert(str_views(ends@) =~= seq![end@]);
        b
    }

    /// Set the fixed start delimiters, keeping any rule context and
    /// consumption.
    pub fn with_start(self, fixed: &[&str]) -> (b: Self)
        ensures
            b@ == (BlockModel {
                start: Some(
                    match self@.start {
                        Some(s) => StartModel { fixed: Some(str_views(fixed@)), ..s },
                        None => StartModel { fixed: Some(str_views(fixed@)), ..default_start() },
                    },
                ),
                ..self@
            }),
    {
        let mut b = self;
        let names = Some(owned_names(fixed));
        b.start = match b.start {
            Some(s) => Some(StartSpec { fixed: names, consume: s.consume, rule: s.rule }),
            None => Some(StartSpec { fixed: names, consume: Consume::All, rule: None }),
        };
        b
    }

    /// Set the fixed end delimiters (`""` is the end of the input),
    /// keeping the end's consumption.
    pub fn with_end(self, fixed: &[&str]) -> (b: Self)
        ensures
            b@ == (BlockModel {
                end: EndModel { fixed: str_views(fixed@), ..self@.end },
                ..self@
            }),
    {
        let mut b = self;
        b.end.fixed = owned_names(fixed);
        b
    }

    /// Gate the block start on a rule context, keeping any fixed start
    /// delimiters and consumption.
    pub fn with_rule(self, rule: HooverRuleSpec) -> (b: Self)
        ensures
            b@ == (BlockModel {
                start: Some(
                    match self@.start {
                        Some(s) => StartModel { rule: Some(rule@), ..s },
                        None => StartModel { rule: Some(rule@), ..default_start() },
                    },
                ),
                ..self@
            }),
    {
        let mut b = self;
        b.start = match b.start {
            Some(s) => Some(StartSpec { fixed: s.fixed, consume: s.consume, rule: Some(rule) }),
            None => Some(StartSpec { fixed: None, consume: Consume::All, rule: Some(rule) }),
        };
        b
    }

    /// Set the escape character.
    pub fn with_escape_char(self, escape_char: char) -> (b: Self)
        ensures
            b@ == (BlockModel { escape_char: Some(escape_char), ..self@ }),
    {
        let mut b = self;
        b.escape_char = Some(escape_char);
        b
    }

    /// Add an escape replacement, replacing the one `escaped` already has.
    pub fn with_escape(self, escaped: &str, replacement: &str) -> (b: Self)
        ensures
            b@ == (BlockModel {
                escape: escape_insert(self@.escape, escaped@, replacement@),
                ..self@
            }),
    {
        let mut b = self;
        insert_escape(&mut b.escape, escaped, replacement);
        b
    }

    /// The token name the block emits.
    pub fn token_name(&self) -> (t: &str)
        ensures
            t@ == token_name_of(self@),
    {
        match &self.token {
            Some(t) => t.as_str(),
            None => crate::DEFAULT_TOKEN,
        }
    }

    /// Whether an escape absent from the table is allowed.
    pub fn allow_unknown(&self) -> (a: bool)
        ensures
            a == allows_unknown(self@),
    {
        match self.allow_unknown_escape {
            Some(a) => a,
            None => true,
        }
    }
}

/// Map `escaped` to `replacement` in `table`: the entry of `escaped` is
/// replaced where there is one, else a new entry is added at the end.
pub fn insert_escape(table: &mut Vec<(String, String)>, escaped: &str, replacement: &str)
    ensures
        escape_views(final(table)@) == escape_insert(escape_views(old(table)@), escaped@, replacement@),
{
    let ghost model = escape_views(table@);
    let n = table.len();
    let mut i: usize = 0;
    while i < n
        invariant
            n == table@.len(),
            i <= n,
            model == escape_views(table@),
            model == escape_views(old(table)@),
            forall|j: int| 0 <= j < i ==> #[trigger] model[j].0 != escaped@,
        decreases n - i,
    {
        if str_eq(table[i].0.as_str(), escaped) {
            proof {
                lemma_escape_index_first(model, escaped@, i as int);
            }
            let entry = (escaped.to_owned(), replacement.to_owned());
            table.set(i, entry);
            assert(escape_views(table@) =~= model.update(i as int, (escaped@, replacement@)));
            return;
        }
        i = i + 1;
    }
    proof {
        lemma_escape_index_in_range(model, escaped@);
        if escape_index(model, escaped@) is Some {
            let k = escape_index(model, escaped@)->0;
            assert(model[k].0 != escaped@);
        }
    }
    let entry = (escaped.to_owned(), replacement.to_owned());
    table.push(entry);
    assert(escape_views(table@) =~= model.push((escaped@, replacement@)));
}

/// The first entry of `table` with key `key` is at `i` when no earlier
/// entry has that key.
pub proof fn lemma_escape_index_first(table: Seq<(Seq<char>, Seq<char>)>, key: Seq<char>, i: int)
    requires
        0 <= i < table.len(),
        table[i].0 == key,
        forall|j: int| 0 <= j < i ==> #[trigger] table[j].0 != key,
    ensures
        escape_index(table, key) == Some(i),
    decreases table.len(),
{
    if i < table.len() - 1 {
        lemma_escape_index_first(table.drop_last(), key, i);
    } else {
        lemma_escape_index_in_range(table.drop_last(), key);
        if escape_index(table.drop_last(), key) is Some {
            let k = escape_index(table.drop_last(), key)->0;
            assert(table[k] == table.drop_last()[k]);
        }
    }
}

} // verus!
