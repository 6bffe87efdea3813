//! Registration logic: the checks and the grammar text with which the
//! plugin extends a host grammar's `val` rule.
use vstd::prelude::*;
use crate::block::{token_name_of, Block};
use crate::error::HooverError;
use crate::groups::{alt_enabled, groups_enabled, listed, listed_entries, string_views};
use crate::text::{
    chars_of, concat2, concat3, debug_quoted, debug_str, is_white_space, is_whitespace, str_eq,
    string_from_chars,
};

verus! {

// ---------------------------------------------------------------------
// JSON string literals.

/// The lower case hexadecimal digit of `d` (below 16).
pub open spec fn hex_digit(d: int) -> char {
    seq!['0', '1', '2', '3', '4', '5', '6', '7', '8', '9', 'a', 'b', 'c', 'd', 'e', 'f'][d]
}

/// How a JSON string literal writes `c`: quote, backslash, newline,
/// carriage return and tab by their two-character escapes, the other
/// control characters below U+0020 as `\u00XX`, everything else as is.
pub open spec fn json_escaped(c: char) -> Seq<char> {
    if c == '"' {
        seq!['\\', '"']
    } else if c == '\\' {
        seq!['\\', '\\']
    } else if c == '\n' {
        seq!['\\', 'n']
    } else if c == '\r' {
        seq!['\\', 'r']
    } else if c == '\t' {
        seq!['\\', 't']
    } else if (c as u32) < 0x20 {
        seq!['\\', 'u', '0', '0', hex_digit(((c as u32) / 16) as int), hex_digit(((c as u32) % 16) as int)]
    } else {
        seq![c]
    }
}

/// The escaped characters of `s`.
pub open spec fn json_body(s: Seq<char>) -> Seq<char>
    decreases s.len(),
{
    if s.len() == 0 {
        Seq::empty()
    } else {
        json_body(s.drop_last()) + json_escaped(s.last())
    }
}

/// `s` as a JSON string literal.
pub open spec fn json_quoted(s: Seq<char>) -> Seq<char> {
    seq!['"'] + json_body(s) + seq!['"']
}

/// Quote `text` as a JSON string literal for the grammar document.
pub fn json_string(text: &str) -> (s: String)
    ensures
        s@ == json_quoted(text@),
{
    let digits: [char; 16] = [
        '0',
        '1',
        '2',
        '3',
        '4',
        '5',
        '6',
        '7',
        '8',
        '9',
        'a',
        'b',
        'c',
        'd',
        'e',
        'f',
    ];
    assert(digits@ =~= seq![
        '0',
        '1',
        '2',
        '3',
        '4',
        '5',
        '6',
        '7',
        '8',
        '9',
        'a',
        'b',
        'c',
        'd',
        'e',
        'f',
    ]);
    let chars = chars_of(text);
    let n = chars.len();
    let mut out: Vec<char> = Vec::new();
    out.push('"');
    let mut i: usize = 0;
    while i < n
        invariant
            n == chars@.len(),
            chars@ == text@,
            i <= n,
            digits@ == seq![
                '0',
                '1',
                '2',
                '3',
                '4',
                '5',
                '6',
                '7',
                '8',
                '9',
                'a',
                'b',
                'c',
                'd',
                'e',
                'f',
            ],
            out@ == seq!['"'] + json_body(chars@.take(i as int)),
        decreases n - i,
    {
        let c = chars[i];
        let ghost before = out@;
        if c == '"' {
            out.push('\\');
            out.push('"');
        } else if c == '\\' {
            out.push('\\');
            out.push('\\');
        } else if c == '\n' {
            out.push('\\');
            out.push('n');
        } else if c == '\r' {
            out.push('\\');
            out.push('r');
        } else if c == '\t' {
            out.push('\\');
            out.push('t');
        } else if (c as u32) < 0x20 {
            let code = c as u32;
            out.push('\\');
            out.push('u');
            out.push('0');
            out.push('0');
            out.push(digits[(code / 16) as usize]);
            out.push(digits[(code % 16) as usize]);
        } else {
            out.push(c);
        }
        assert(out@ =~= before + json_escaped(c));
        assert(chars@.take(i + 1).drop_last() =~= chars@.take(i as int));
        i = i + 1;
        assert(out@ =~= seq!['"'] + json_body(chars@.take(i as int)));
    }
    out.push('"');
    assert(chars@.take(n as int) =~= chars@);
    assert(out@ =~= json_quoted(text@));
    string_from_chars(out.as_slice())
}

// ---------------------------------------------------------------------
// Lists.

/// The entries of `list` joined by `sep`.
pub open spec fn joined(list: Seq<Seq<char>>, sep: Seq<char>) -> Seq<char>
    decreases list.len(),
{
    if list.len() == 0 {
        Seq::empty()
    } else if list.len() == 1 {
        list[0]
    } else {
        joined(list.drop_last(), sep) + sep + list.last()
    }
}

/// The strings of `list` joined by `sep`.
pub fn join_strings(list: &Vec<String>, sep: &str) -> (s: String)
    ensures
        s@ == joined(string_views(list@), sep@),
{
    let n = list.len();
    let ghost views = string_views(list@);
    let mut s = String::new();
    let mut i: usize = 0;
    assert(views.take(0) =~= Seq::<Seq<char>>::empty());
    while i < n
        invariant
            n == list@.len(),
            views == string_views(list@),
            i <= n,
            s@ == joined(views.take(i as int), sep@),
        decreases n - i,
    {
        assert(views.take(i + 1).drop_last() =~= views.take(i as int));
        assert(views.take(i + 1).last() == list@[i as int]@);
        if i != 0 {
            s.append(sep);
        } else {
            assert(views.take(1) =~= seq![list@[0]@]);
        }
        s.append(list[i].as_str());
        i = i + 1;
    }
    assert(views.take(n as int) =~= views);
    s
}

/// How Rust's Debug writes a list of strings: each quoted, separated by
/// `, `, in square brackets.
pub open spec fn debug_list(list: Seq<Seq<char>>) -> Seq<char> {
    "["@ + joined(list.map_values(|s: Seq<char>| debug_quoted(s)), ", "@) + "]"@
}

/// Rust's Debug of a list of strings.
pub fn debug_strings(list: &Vec<String>) -> (s: String)
    ensures
        s@ == debug_list(string_views(list@)),
{
    let n = list.len();
    let mut quoted: Vec<String> = Vec::new();
    let mut i: usize = 0;
    while i < n
        invariant
            n == list@.len(),
            i <= n,
            string_views(quoted@) == string_views(list@).take(i as int).map_values(
                |s: Seq<char>| debug_quoted(s),
            ),
        decreases n - i,
    {
        let q = debug_str(list[i].as_str());
        let ghost before = quoted@;
        quoted.push(q);
        assert(string_views(quoted@) =~= string_views(before).push(q@));
        assert(string_views(list@).take(i + 1) =~= string_views(list@).take(i as int).push(
            list@[i as int]@,
        ));
        assert(string_views(list@).take(i + 1).map_values(|s: Seq<char>| debug_quoted(s))
            =~= string_views(list@).take(i as int).map_values(|s: Seq<char>| debug_quoted(s)).push(
            debug_quoted(list@[i as int]@),
        ));
        i = i + 1;
    }
    assert(string_views(list@).take(n as int) =~= string_views(list@));
    let inner = join_strings(&quoted, ", ");
    concat3("[", inner.as_str(), "]")
}

// ---------------------------------------------------------------------
// Registration checks.

/// The message of a registration on a host without a `val` rule.
pub open spec fn missing_val_message() -> Seq<char> {
    "tabnas-hoover: the 'val' rule is missing; register a grammar that defines it before the hoover plugin"@
}

/// Hoover extends the host grammar's `val` rule: refuse a host whose
/// rules do not include it.
pub fn check_val_rule(rule_names: &Vec<String>) -> (r: Result<(), HooverError>)
    ensures
        r is Ok <==> string_views(rule_names@).contains("val"@),
        r matches Err(e) ==> e.0@ == missing_val_message(),
{
    let n = rule_names.len();
    let mut i: usize = 0;
    while i < n
        invariant
            n == rule_names@.len(),
            i <= n,
            forall|j: int| 0 <= j < i ==> rule_names@[j]@ != "val"@,
        decreases n - i,
    {
        if str_eq(rule_names[i].as_str(), "val") {
            assert(string_views(rule_names@)[i as int] == "val"@);
            return Ok(());
        }
        i = i + 1;
    }
    assert forall|j: int| 0 <= j < string_views(rule_names@).len() implies string_views(
        rule_names@,
    )[j] != "val"@ by {
        assert(string_views(rule_names@)[j] == rule_names@[j]@);
    }
    Err(
        HooverError(
            "tabnas-hoover: the 'val' rule is missing; register a grammar that defines it before the hoover plugin".to_owned(),
        ),
    )
}

/// Whether `s` is a token name: a non-empty word without White_Space.
pub open spec fn is_token_word(s: Seq<char>) -> bool {
    s.len() > 0 && forall|i: int| 0 <= i < s.len() ==> !is_white_space(#[trigger] s[i])
}

/// The message of a block whose token name is not a word.
pub open spec fn bad_token_message(name: Seq<char>, token: Seq<char>) -> Seq<char> {
    "tabnas-hoover: block "@ + debug_quoted(name) + " has the token name "@ + debug_quoted(token)
        + "; a token name is a non-empty word without whitespace"@
}

/// The token name a block emits, refused unless it is a non-empty word
/// without whitespace: the alternate is declared through the grammar
/// document, where a token name is one whitespace-free word.
pub fn block_token_name(block: &Block) -> (r: Result<String, HooverError>)
    ensures
        r matches Ok(t) ==> is_token_word(token_name_of(block@)) && t@ == token_name_of(block@),
        r matches Err(e) ==> !is_token_word(token_name_of(block@)) && e.0@ == bad_token_message(
            block@.name,
            token_name_of(block@),
        ),
{
    let token = block.token_name();
    let chars = chars_of(token);
    let n = chars.len();
    let mut word = n > 0;
    let mut i: usize = 0;
    while i < n
        invariant
            n == chars@.len(),
            chars@ == token@,
            i <= n,
            word == (n > 0 && forall|j: int| 0 <= j < i ==> !is_white_space(#[trigger] chars@[j])),
        decreases n - i,
    {
        if is_whitespace(chars[i]) {
            word = false;
        }
        i = i + 1;
    }
    if word {
        Ok(token.to_owned())
    } else {
        let name = debug_str(block.name.as_str());
        let quoted = debug_str(token);
        let head = concat3("tabnas-hoover: block ", name.as_str(), " has the token name ");
        let msg = concat3(
            head.as_str(),
            quoted.as_str(),
            "; a token name is a non-empty word without whitespace",
        );
        Err(HooverError(msg))
    }
}

// ---------------------------------------------------------------------
// The `val` alternates.

/// The alternate that accepts a block token: its token name, the action
/// reference when there is an action, and the host's groups when there
/// are any.
pub open spec fn alt_text(token: Seq<char>, action: Option<Seq<char>>, groups: Seq<char>) -> Seq<
    char,
> {
    "{\"s\":"@ + json_quoted(token) + match action {
        Some(a) => ",\"a\":"@ + json_quoted(a),
        None => Seq::empty(),
    } + if groups.len() == 0 {
        Seq::<char>::empty()
    } else {
        ",\"g\":"@ + json_quoted(groups)
    } + "}"@
}

/// The view of an optional string slice.
pub open spec fn opt_str_view(s: Option<&str>) -> Option<Seq<char>> {
    match s {
        Some(s) => Some(s@),
        None => None,
    }
}

/// The alternate that accepts the token `token`.
pub fn alt_json(token: &str, action_ref: Option<&str>, groups: &str) -> (s: String)
    ensures
        s@ == alt_text(token@, opt_str_view(action_ref), groups@),
{
    let quoted = json_string(token);
    let mut s = concat2("{\"s\":", quoted.as_str());
    let ghost after_token = s@;
    match action_ref {
        Some(a) => {
            let qa = json_string(a);
            s.append(",\"a\":");
            s.append(qa.as_str());
        },
        None => {},
    }
    let ghost after_action = s@;
    let group_chars = chars_of(groups);
    if group_chars.len() != 0 {
        let qg = json_string(groups);
        s.append(",\"g\":");
        s.append(qg.as_str());
    }
    s.append("}");
    proof {
        let action_part = match opt_str_view(action_ref) {
            Some(a) => ",\"a\":"@ + json_quoted(a),
            None => Seq::<char>::empty(),
        };
        let group_part = if groups@.len() == 0 {
            Seq::<char>::empty()
        } else {
            ",\"g\":"@ + json_quoted(groups@)
        };
        assert(after_action =~= after_token + action_part);
        assert(s@ =~= after_token + action_part + group_part + "}"@);
    }
    s
}

/// The indices of the names that occur for the first time, in order.
pub open spec fn first_occurrences(names: Seq<Seq<char>>) -> Seq<int>
    decreases names.len(),
{
    if names.len() == 0 {
        Seq::empty()
    } else if names.drop_last().contains(names.last()) {
        first_occurrences(names.drop_last())
    } else {
        first_occurrences(names.drop_last()).push(names.len() - 1)
    }
}

/// The alternates of the first occurrences, each added in front of those
/// before it (the order in which the engine's `open` prepends them).
pub open spec fn alts_of(
    names: Seq<Seq<char>>,
    firsts: Seq<int>,
    action: Option<Seq<char>>,
    groups: Seq<char>,
) -> Seq<Seq<char>>
    decreases firsts.len(),
{
    if firsts.len() == 0 {
        Seq::empty()
    } else {
        seq![alt_text(names[firsts.last()], action, groups)] + alts_of(
            names,
            firsts.drop_last(),
            action,
            groups,
        )
    }
}

/// The `val` alternates to add: one per distinct token name, at its first
/// block, listed in reverse block order.
pub struct AltPlan {
    /// The indices of the blocks whose token name occurs for the first
    /// time, in block order.
    pub first: Vec<usize>,
    /// The alternates, the last distinct token's first.
    pub alts: Vec<String>,
}

/// Whether `names[..i]` holds `names[i]`.
fn seen_before(names: &Vec<String>, i: usize) -> (r: bool)
    requires
        i < names@.len(),
    ensures
        r == string_views(names@).take(i as int).contains(names@[i as int]@),
{
    let ghost views = string_views(names@);
    let mut j: usize = 0;
    while j < i
        invariant
            i < names@.len(),
            views == string_views(names@),
            j <= i,
            forall|k: int| 0 <= k < j ==> names@[k]@ != names@[i as int]@,
        decreases i - j,
    {
        if str_eq(names[j].as_str(), names[i].as_str()) {
            assert(views.take(i as int)[j as int] == names@[i as int]@);
            return true;
        }
        j = j + 1;
    }
    assert forall|k: int| 0 <= k < views.take(i as int).len() implies views.take(i as int)[k]
        != names@[i as int]@ by {
        assert(views.take(i as int)[k] == names@[k]@);
    }
    false
}

/// Plan the `val` alternates for the blocks' token names.
pub fn plan_alternates(names: &Vec<String>, action_ref: Option<&str>, groups: &str) -> (p: AltPlan)
    ensures
        p.first@.map_values(|i: usize| i as int) == first_occurrences(string_views(names@)),
        string_views(p.alts@) == alts_of(
            string_views(names@),
            first_occurrences(string_views(names@)),
            opt_str_view(action_ref),
            groups@,
        ),
{
    let ghost views = string_views(names@);
    let n = names.len();
    let mut first: Vec<usize> = Vec::new();
    let mut alts: Vec<String> = Vec::new();
    let mut i: usize = 0;
    assert(views.take(0) =~= Seq::<Seq<char>>::empty());
    while i < n
        invariant
            n == names@.len(),
            views == string_views(names@),
            i <= n,
            first@.map_values(|i: usize| i as int) == first_occurrences(views.take(i as int)),
            forall|k: int| 0 <= k < first@.len() ==> first@[k] < i,
            string_views(alts@) == alts_of(
                views,
                first_occurrences(views.take(i as int)),
                opt_str_view(action_ref),
                groups@,
            ),
        decreases n - i,
    {
        let ghost prefix = views.take(i + 1);
        assert(prefix.drop_last() =~= views.take(i as int));
        assert(prefix.last() == names@[i as int]@);
        if !seen_before(names, i) {
            let alt = alt_json(names[i].as_str(), action_ref, groups);
            let ghost before_first = first@;
            let ghost before_alts = alts@;
            first.push(i);
            alts.insert(0, alt);
            assert(first@.map_values(|i: usize| i as int) =~= before_first.map_values(
                |i: usize| i as int,
            ).push(i as int));
            assert(string_views(alts@) =~= seq![alt@] + string_views(before_alts));
            assert(first_occurrences(prefix) =~= first_occurrences(views.take(i as int)).push(
                i as int,
            ));
            let ghost fs = first_occurrences(prefix);
            assert(fs.drop_last() =~= first_occurrences(views.take(i as int)));
            assert(views[i as int] == names@[i as int]@);
            assert(alts_of(views, fs, opt_str_view(action_ref), groups@) == seq![alt@] + alts_of(
                views,
                first_occurrences(views.take(i as int)),
                opt_str_view(action_ref),
                groups@,
            ));
        } else {
            assert(first_occurrences(prefix) == first_occurrences(views.take(i as int)));
        }
        i = i + 1;
    }
    assert(views.take(n as int) =~= views);
    AltPlan { first, alts }
}

/// The host's active group tags: the entries of its `rule.include` list,
/// and those entries joined by commas (the groups the alternates carry,
/// so that the host's alt filter keeps them).
pub fn host_groups(rule_include: &str) -> (r: (Vec<String>, String))
    ensures
        string_views(r.0@) == listed_entries(rule_include@),
        r.1@ == joined(listed_entries(rule_include@), ","@),
{
    let entries = listed(rule_include);
    let groups = join_strings(&entries, ",");
    (entries, groups)
}

/// The grammar document that registers the matcher at `order` and adds
/// the alternates to the `val` rule.
pub open spec fn grammar_text(order: Seq<char>, make_ref: Seq<char>, alts: Seq<Seq<char>>) -> Seq<
    char,
> {
    "{\"options\":{\"lex\":{\"match\":{\"hoover\":{\"order\":"@ + order + ",\"make\":"@
        + json_quoted(make_ref) + "}}}},\"rule\":{\"val\":{\"open\":["@ + joined(alts, ","@)
        + "]}}}"@
}

/// The grammar document, with the matcher order written as `order`.
pub fn grammar_document(order: &str, make_ref: &str, alts: &Vec<String>) -> (s: String)
    ensures
        s@ == grammar_text(order@, make_ref@, string_views(alts@)),
{
    let head = concat3("{\"options\":{\"lex\":{\"match\":{\"hoover\":{\"order\":", order, ",\"make\":");
    let make = json_string(make_ref);
    let middle = concat3(head.as_str(), make.as_str(), "}}}},\"rule\":{\"val\":{\"open\":[");
    let list = join_strings(alts, ",");
    let s = concat3(middle.as_str(), list.as_str(), "]}}}");
    s
}

// ---------------------------------------------------------------------
// The alt filter check.

/// A `val` alternate as the engine holds it after the grammar is applied:
/// the token sets of its positions and its group tags.
pub struct AltView {
    pub positions: Vec<Vec<usize>>,
    pub groups: String,
}

/// Whether `alt` accepts the token `tin` and survives the alt filter.
pub open spec fn admits_token(alt: AltView, tin: usize, incl: Seq<char>, excl: Seq<char>) -> bool {
    &&& exists|p: int| 0 <= p < alt.positions@.len() && (#[trigger] alt.positions@[p])@.contains(tin)
    &&& alt_enabled(alt.groups@, incl, excl)
}

/// Whether some surviving alternate accepts the token `tin`.
pub open spec fn token_survives(alts: Seq<AltView>, tin: usize, incl: Seq<char>, excl: Seq<char>) -> bool {
    exists|a: int| 0 <= a < alts.len() && admits_token(#[trigger] alts[a], tin, incl, excl)
}

/// The message of a host whose alt filter removed a block alternate.
pub open spec fn removed_message(include_listed: Seq<Seq<char>>, excl: Seq<char>) -> Seq<char> {
    "tabnas-hoover: the block alternate was removed from the 'val' rule by the host grammar's alt filter (rule.include="@
        + debug_list(include_listed) + ", rule.exclude="@ + debug_list(listed_entries(excl))
        + "); hoover cannot extend a grammar that excludes it"@
}

/// Whether `set` holds `tin`.
fn set_holds(set: &Vec<usize>, tin: usize) -> (r: bool)
    ensures
        r == set@.contains(tin),
{
    let n = set.len();
    let mut i: usize = 0;
    while i < n
        invariant
            n == set@.len(),
            i <= n,
            forall|j: int| 0 <= j < i ==> set@[j] != tin,
        decreases n - i,
    {
        if set[i] == tin {
            return true;
        }
        i = i + 1;
    }
    false
}

/// Whether `alt` accepts the token `tin` and survives the alt filter.
fn admits_token_exec(alt: &AltView, tin: usize, incl: &str, excl: &str) -> (r: bool)
    ensures
        r == admits_token(*alt, tin, incl@, excl@),
{
    let n = alt.positions.len();
    let mut p: usize = 0;
    let mut accepts = false;
    while p < n
        invariant
            n == alt.positions@.len(),
            p <= n,
            accepts == exists|q: int| 0 <= q < p && (#[trigger] alt.positions@[q])@.contains(tin),
        decreases n - p,
    {
        if set_holds(&alt.positions[p], tin) {
            accepts = true;
        }
        p = p + 1;
    }
    accepts && groups_enabled(alt.groups.as_str(), incl, excl)
}

/// Check that every block token has a `val` alternate that accepts it and
/// survives the host's alt filter: the failure mode is silent otherwise,
/// a working lexer feeding a rule that cannot accept its token.
pub fn check_alternates(
    tokens: &Vec<usize>,
    alts: &Vec<AltView>,
    include_listed: &Vec<String>,
    incl: &str,
    excl: &str,
) -> (r: Result<(), HooverError>)
    ensures
        r is Ok <==> forall|t: int|
            0 <= t < tokens@.len() ==> token_survives(alts@, #[trigger] tokens@[t], incl@, excl@),
        r matches Err(e) ==> e.0@ == removed_message(string_views(include_listed@), excl@),
{
    let nt = tokens.len();
    let na = alts.len();
    let mut t: usize = 0;
    while t < nt
        invariant
            nt == tokens@.len(),
            na == alts@.len(),
            t <= nt,
            forall|u: int| 0 <= u < t ==> token_survives(alts@, #[trigger] tokens@[u], incl@, excl@),
        decreases nt - t,
    {
        let tin = tokens[t];
        let mut a: usize = 0;
        let mut found = false;
        while a < na && !found
            invariant
                na == alts@.len(),
                a <= na,
                found ==> token_survives(alts@, tin, incl@, excl@),
                !found ==> forall|b: int| 0 <= b < a ==> !admits_token(#[trigger] alts@[b], tin, incl@, excl@),
            decreases na - a,
        {
            if admits_token_exec(&alts[a], tin, incl, excl) {
                found = true;
            }
            a = a + 1;
        }
        if !found {
            let include_text = debug_strings(include_listed);
            let exclude_text = debug_strings(&listed(excl));
            let head = concat3(
                "tabnas-hoover: the block alternate was removed from the 'val' rule by the host grammar's alt filter (rule.include=",
                include_text.as_str(),
                ", rule.exclude=",
            );
            let msg = concat3(
                head.as_str(),
                exclude_text.as_str(),
                "); hoover cannot extend a grammar that excludes it",
            );
            return Err(HooverError(msg));
        }
        t = t + 1;
    }
    Ok(())
}

} // verus!
