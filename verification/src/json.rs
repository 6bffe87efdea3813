//! Reading the options from their JSON data shape: `{"block": [...],
//! "lex": {"order": n}}`, each block's fields in camel case
//! (`escapeChar`, `allowUnknownEscape`, ...), keys matched exactly and
//! then ignoring ASCII case.
use vstd::prelude::*;
use crate::block::{
    empty_block, escape_insert, escape_views, insert_escape, Block, BlockModel,
    Consume, ConsumeModel, EndModel, EndSpec, FilterModel, HooverRuleFilter, HooverRuleSpec,
    RuleSpecModel, StartModel, StartSpec,
};
use crate::error::HooverError;
use crate::groups::string_views;
use crate::text::{chars_of, concat2, concat3, debug_quoted, debug_str, str_eq};

verus! {

/// A JSON document. Object members keep their document order; numbers
/// keep their decimal text.
#[derive(Debug)]
pub enum JsonValue {
    Null,
    Bool(bool),
    Number(String),
    Text(String),
    Array(Vec<JsonValue>),
    Object(Vec<(String, JsonValue)>),
}

// ---------------------------------------------------------------------
// Keys.

/// The code of `c` with ASCII upper case letters lowered.
pub open spec fn lower_code(c: char) -> int {
    if 'A' <= c && c <= 'Z' {
        (c as int) + 32
    } else {
        c as int
    }
}

/// `str::eq_ignore_ascii_case`: equal once ASCII letters are lowered.
pub open spec fn same_ignoring_ascii_case(a: Seq<char>, b: Seq<char>) -> bool {
    &&& a.len() == b.len()
    &&& forall|i: int| 0 <= i < a.len() ==> lower_code(#[trigger] a[i]) == lower_code(b[i])
}

/// The index of the first member whose key is `key`.
pub open spec fn exact_key(members: Seq<(String, JsonValue)>, key: Seq<char>) -> Option<int>
    decreases members.len(),
{
    if members.len() == 0 {
        None
    } else {
        match exact_key(members.drop_last(), key) {
            Some(i) => Some(i),
            None => if members.last().0@ == key {
                Some(members.len() - 1)
            } else {
                None
            },
        }
    }
}

/// The index of the first member whose key is `key` ignoring ASCII case.
pub open spec fn folded_key(members: Seq<(String, JsonValue)>, key: Seq<char>) -> Option<int>
    decreases members.len(),
{
    if members.len() == 0 {
        None
    } else {
        match folded_key(members.drop_last(), key) {
            Some(i) => Some(i),
            None => if same_ignoring_ascii_case(members.last().0@, key) {
                Some(members.len() - 1)
            } else {
                None
            },
        }
    }
}

/// The member `key` of an object: looked up exactly, then ignoring ASCII
/// case, so both `escapeChar` and `EscapeChar` resolve.
pub open spec fn field_of(members: Seq<(String, JsonValue)>, key: Seq<char>) -> Option<JsonValue> {
    match exact_key(members, key) {
        Some(i) => Some(members[i].1),
        None => match folded_key(members, key) {
            Some(i) => Some(members[i].1),
            None => None,
        },
    }
}

proof fn lemma_first_key(
    members: Seq<(String, JsonValue)>,
    key: Seq<char>,
    i: int,
    folded: bool,
)
    requires
        0 <= i < members.len(),
        folded ==> same_ignoring_ascii_case(members[i].0@, key),
        !folded ==> members[i].0@ == key,
        forall|j: int|
            0 <= j < i ==> (if folded {
                !same_ignoring_ascii_case(#[trigger] members[j].0@, key)
            } else {
                members[j].0@ != key
            }),
    ensures
        folded ==> folded_key(members, key) == Some(i),
        !folded ==> exact_key(members, key) == Some(i),
    decreases members.len(),
{
    if i < members.len() - 1 {
        assert forall|j: int| 0 <= j < i implies (if folded {
            !same_ignoring_ascii_case(#[trigger] members.drop_last()[j].0@, key)
        } else {
            members.drop_last()[j].0@ != key
        }) by {
            assert(members.drop_last()[j] == members[j]);
        }
        lemma_first_key(members.drop_last(), key, i, folded);
    } else {
        lemma_no_key(members.drop_last(), key, folded);
    }
}

proof fn lemma_no_key(members: Seq<(String, JsonValue)>, key: Seq<char>, folded: bool)
    requires
        forall|j: int|
            0 <= j < members.len() ==> (if folded {
                !same_ignoring_ascii_case(#[trigger] members[j].0@, key)
            } else {
                members[j].0@ != key
            }),
    ensures
        folded ==> folded_key(members, key) is None,
        !folded ==> exact_key(members, key) is None,
    decreases members.len(),
{
    if members.len() > 0 {
        assert forall|j: int| 0 <= j < members.len() - 1 implies (if folded {
            !same_ignoring_ascii_case(#[trigger] members.drop_last()[j].0@, key)
        } else {
            members.drop_last()[j].0@ != key
        }) by {
            assert(members.drop_last()[j] == members[j]);
        }
        lemma_no_key(members.drop_last(), key, folded);
    }
}

/// Whether a member key `k` matches `key`: exactly, or (`folded`)
/// ignoring ASCII case.
pub open spec fn key_match(k: Seq<char>, key: Seq<char>, folded: bool) -> bool {
    if folded {
        same_ignoring_ascii_case(k, key)
    } else {
        k == key
    }
}

/// The first member whose key matches `key`, exactly or ignoring ASCII
/// case.
pub open spec fn key_index(members: Seq<(String, JsonValue)>, key: Seq<char>, folded: bool) -> Option<
    int,
> {
    if folded {
        folded_key(members, key)
    } else {
        exact_key(members, key)
    }
}

/// `key_index` finds the first matching member, and finds none only when
/// no member matches.
pub proof fn lemma_key_index(members: Seq<(String, JsonValue)>, key: Seq<char>, folded: bool)
    ensures
        key_index(members, key, folded) matches Some(i) ==> 0 <= i < members.len() && key_match(
            members[i].0@,
            key,
            folded,
        ) && forall|j: int| 0 <= j < i ==> !key_match((#[trigger] members[j]).0@, key, folded),
        key_index(members, key, folded) is None ==> forall|j: int|
            0 <= j < members.len() ==> !key_match((#[trigger] members[j]).0@, key, folded),
    decreases members.len(),
{
    if members.len() > 0 {
        let init = members.drop_last();
        lemma_key_index(init, key, folded);
        assert forall|j: int| 0 <= j < init.len() implies #[trigger] members[j] == init[j] by {}
    }
}

/// A key that differs from `key` even ignoring ASCII case differs from it.
pub proof fn lemma_unlike_keys_differ(k: Seq<char>, key: Seq<char>)
    requires
        !same_ignoring_ascii_case(k, key),
    ensures
        k != key,
{
}

/// Adding a member whose key is unlike `key`, even ignoring ASCII case,
/// leaves the member `key` as it was.
pub proof fn lemma_field_of_insert(
    members: Seq<(String, JsonValue)>,
    j: int,
    extra: (String, JsonValue),
    key: Seq<char>,
)
    requires
        0 <= j <= members.len(),
        !same_ignoring_ascii_case(extra.0@, key),
    ensures
        field_of(members.insert(j, extra), key) == field_of(members, key),
{
    lemma_unlike_keys_differ(extra.0@, key);
    lemma_key_index_insert(members, j, extra, key, false);
    lemma_key_index_insert(members, j, extra, key, true);
    let more = members.insert(j, extra);
    if let Some(i) = exact_key(members, key) {
        lemma_key_index(members, key, false);
        if i < j {
            assert(more[i] == members[i]);
        } else {
            assert(more[i + 1] == members[i]);
        }
    } else if let Some(i) = folded_key(members, key) {
        lemma_key_index(members, key, true);
        if i < j {
            assert(more[i] == members[i]);
        } else {
            assert(more[i + 1] == members[i]);
        }
    }
}

proof fn lemma_key_index_insert(
    members: Seq<(String, JsonValue)>,
    j: int,
    extra: (String, JsonValue),
    key: Seq<char>,
    folded: bool,
)
    requires
        0 <= j <= members.len(),
        !key_match(extra.0@, key, folded),
    ensures
        match key_index(members, key, folded) {
            Some(i) => key_index(members.insert(j, extra), key, folded) == Some(
                if i < j {
                    i
                } else {
                    i + 1
                },
            ),
            None => key_index(members.insert(j, extra), key, folded) is None,
        },
{
    let more = members.insert(j, extra);
    lemma_key_index(members, key, folded);
    assert forall|l: int| 0 <= l < more.len() implies #[trigger] more[l] == (if l < j {
        members[l]
    } else if l == j {
        extra
    } else {
        members[l - 1]
    }) by {}
    match key_index(members, key, folded) {
        Some(i) => {
            let n = if i < j {
                i
            } else {
                i + 1
            };
            assert forall|l: int| 0 <= l < n implies (if folded {
                !same_ignoring_ascii_case(#[trigger] more[l].0@, key)
            } else {
                more[l].0@ != key
            }) by {
                if l < j {
                    assert(more[l] == members[l]);
                } else if l > j {
                    assert(more[l] == members[l - 1]);
                }
            }
            assert(more[n] == members[i]);
            lemma_first_key(more, key, n, folded);
        },
        None => {
            assert forall|l: int| 0 <= l < more.len() implies (if folded {
                !same_ignoring_ascii_case(#[trigger] more[l].0@, key)
            } else {
                more[l].0@ != key
            }) by {
                if l < j {
                    assert(more[l] == members[l]);
                } else if l > j {
                    assert(more[l] == members[l - 1]);
                }
            }
            lemma_no_key(more, key, folded);
        },
    }
}

/// The code of `c` with ASCII upper case letters lowered.
fn lower_code_exec(c: char) -> (r: u32)
    ensures
        r == lower_code(c),
{
    if 'A' <= c && c <= 'Z' {
        (c as u32) + 32
    } else {
        c as u32
    }
}

/// `str::eq_ignore_ascii_case`.
pub fn eq_ignore_ascii_case(a: &str, b: &str) -> (r: bool)
    ensures
        r == same_ignoring_ascii_case(a@, b@),
{
    let va = chars_of(a);
    let vb = chars_of(b);
    if va.len() != vb.len() {
        return false;
    }
    let n = va.len();
    let mut i: usize = 0;
    while i < n
        invariant
            n == va@.len(),
            n == vb@.len(),
            va@ == a@,
            vb@ == b@,
            i <= n,
            forall|j: int| 0 <= j < i ==> lower_code(#[trigger] va@[j]) == lower_code(vb@[j]),
        decreases n - i,
    {
        if lower_code_exec(va[i]) != lower_code_exec(vb[i]) {
            return false;
        }
        i = i + 1;
    }
    true
}

/// The member `key` of an object, looked up exactly, then ignoring ASCII
/// case.
pub fn field<'a>(members: &'a Vec<(String, JsonValue)>, key: &str) -> (r: Option<&'a JsonValue>)
    ensures
        r matches Some(v) ==> field_of(members@, key@) == Some(*v),
        r is None ==> field_of(members@, key@) is None,
{
    let n = members.len();
    let mut i: usize = 0;
    while i < n
        invariant
            n == members@.len(),
            i <= n,
            forall|j: int| 0 <= j < i ==> (#[trigger] members@[j]).0@ != key@,
        decreases n - i,
    {
        if str_eq(members[i].0.as_str(), key) {
            proof {
                lemma_first_key(members@, key@, i as int, false);
            }
            return Some(&members[i].1);
        }
        i = i + 1;
    }
    proof {
        lemma_no_key(members@, key@, false);
    }
    let mut i: usize = 0;
    while i < n
        invariant
            n == members@.len(),
            i <= n,
            exact_key(members@, key@) is None,
            forall|j: int| 0 <= j < i ==> !same_ignoring_ascii_case((#[trigger] members@[j]).0@, key@),
        decreases n - i,
    {
        if eq_ignore_ascii_case(members[i].0.as_str(), key) {
            proof {
                lemma_first_key(members@, key@, i as int, true);
            }
            return Some(&members[i].1);
        }
        i = i + 1;
    }
    proof {
        lemma_no_key(members@, key@, true);
    }
    None
}

// ---------------------------------------------------------------------
// Results.

/// Whether an executable result agrees with its model: the same success
/// value, seen through `view`, or the same error message.
pub open spec fn agrees<T, M>(
    r: Result<T, HooverError>,
    model: Result<M, Seq<char>>,
    view: spec_fn(T) -> M,
) -> bool {
    match r {
        Ok(v) => model == Ok::<M, Seq<char>>(view(v)),
        Err(e) => model == Err::<M, Seq<char>>(e.0@),
    }
}

/// The message `hoover: <label><what>`.
pub open spec fn message(label: Seq<char>, what: Seq<char>) -> Seq<char> {
    "hoover: "@ + label + what
}

/// The error `hoover: <label><what>`.
fn error(label: &str, what: &str) -> (e: HooverError)
    ensures
        e.0@ == message(label@, what@),
{
    HooverError(concat3("hoover: ", label, what))
}

/// The string of a JSON text value.
pub open spec fn text_of(v: JsonValue) -> Option<Seq<char>> {
    match v {
        JsonValue::Text(t) => Some(t@),
        _ => None,
    }
}

/// The string of an optional JSON text value.
pub open spec fn opt_text(v: Option<JsonValue>) -> Option<Seq<char>> {
    match v {
        Some(v) => text_of(v),
        None => None,
    }
}

/// The boolean of an optional JSON boolean value.
pub open spec fn opt_bool(v: Option<JsonValue>) -> Option<bool> {
    match v {
        Some(JsonValue::Bool(b)) => Some(b),
        _ => None,
    }
}

// ---------------------------------------------------------------------
// Lists of strings.

/// The strings of the items, or the error of the first item that is not
/// a string.
pub open spec fn item_strings(items: Seq<JsonValue>, label: Seq<char>) -> Result<
    Seq<Seq<char>>,
    Seq<char>,
>
    decreases items.len(),
{
    if items.len() == 0 {
        Ok(Seq::empty())
    } else {
        match item_strings(items.drop_last(), label) {
            Err(e) => Err(e),
            Ok(list) => match text_of(items.last()) {
                Some(t) => Ok(list.push(t)),
                None => Err(message(label, " entries must be strings"@)),
            },
        }
    }
}

/// A `fixed`-style field: a single string or a list of them.
pub open spec fn strings_model(v: JsonValue, label: Seq<char>) -> Result<Seq<Seq<char>>, Seq<char>> {
    match v {
        JsonValue::Text(t) => Ok(seq![t@]),
        JsonValue::Array(items) => item_strings(items@, label),
        _ => Err(message(label, " must be a string or a list of strings"@)),
    }
}

/// A `fixed`-style field: a single string or a list of them.
pub fn strings_from_json(value: &JsonValue, label: &str) -> (r: Result<Vec<String>, HooverError>)
    ensures
        agrees(r, strings_model(*value, label@), |v: Vec<String>| string_views(v@)),
{
    match value {
        JsonValue::Text(text) => {
            let mut v: Vec<String> = Vec::new();
            v.push(text.clone());
            assert(string_views(v@) =~= seq![text@]);
            Ok(v)
        },
        JsonValue::Array(items) => {
            let n = items.len();
            let mut v: Vec<String> = Vec::new();
            let mut i: usize = 0;
            assert(items@.take(0) =~= Seq::<JsonValue>::empty());
            assert(string_views(v@) =~= Seq::<Seq<char>>::empty());
            while i < n
                invariant
                    n == items@.len(),
                    i <= n,
                    strings_model(*value, label@) == item_strings(items@, label@),
                    item_strings(items@.take(i as int), label@) == Ok::<_, Seq<char>>(
                        string_views(v@),
                    ),
                decreases n - i,
            {
                assert(items@.take(i + 1).drop_last() =~= items@.take(i as int));
                assert(items@.take(i + 1).last() == items@[i as int]);
                match &items[i] {
                    JsonValue::Text(t) => {
                        let ghost before = v@;
                        v.push(t.clone());
                        assert(string_views(v@) =~= string_views(before).push(t@));
                    },
                    _ => {
                        proof {
                            lemma_item_strings_prefix_err(items@, i as int + 1, label@);
                        }
                        return Err(error(label, " entries must be strings"));
                    },
                }
                i = i + 1;
            }
            assert(items@.take(n as int) =~= items@);
            Ok(v)
        },
        _ => Err(error(label, " must be a string or a list of strings")),
    }
}

/// An error in a prefix of the items is the error of all of them.
proof fn lemma_item_strings_prefix_err(items: Seq<JsonValue>, m: int, label: Seq<char>)
    requires
        0 <= m <= items.len(),
        item_strings(items.take(m), label) is Err,
    ensures
        item_strings(items, label) == item_strings(items.take(m), label),
    decreases items.len() - m,
{
    if m < items.len() {
        assert(items.take(m + 1).drop_last() =~= items.take(m));
        lemma_item_strings_prefix_err(items, m + 1, label);
    } else {
        assert(items.take(m) =~= items);
    }
}

/// An optional `fixed`-style field.
pub open spec fn opt_strings_model(v: Option<JsonValue>, label: Seq<char>) -> Result<
    Option<Seq<Seq<char>>>,
    Seq<char>,
> {
    match v {
        None => Ok(None),
        Some(v) => match strings_model(v, label) {
            Ok(list) => Ok(Some(list)),
            Err(e) => Err(e),
        },
    }
}

/// An optional `fixed`-style field.
fn opt_strings(value: Option<&JsonValue>, label: &str) -> (r: Result<
    Option<Vec<String>>,
    HooverError,
>)
    ensures
        agrees(
            r,
            opt_strings_model(
                match value {
                    Some(v) => Some(*v),
                    None => None,
                },
                label@,
            ),
            |v: Option<Vec<String>>| crate::block::opt_views(v),
        ),
{
    match value {
        None => Ok(None),
        Some(v) => match strings_from_json(v, label) {
            Ok(list) => Ok(Some(list)),
            Err(e) => Err(e),
        },
    }
}

// ---------------------------------------------------------------------
// Consumption.

/// The `consume` member of `members`: absent, null or `true` consume all,
/// `false` consumes nothing, a list consumes the listed delimiters.
pub open spec fn consume_model(members: Seq<(String, JsonValue)>, label: Seq<char>) -> Result<
    ConsumeModel,
    Seq<char>,
> {
    match field_of(members, "consume"@) {
        None => Ok(ConsumeModel::All),
        Some(JsonValue::Null) => Ok(ConsumeModel::All),
        Some(JsonValue::Bool(true)) => Ok(ConsumeModel::All),
        Some(JsonValue::Bool(false)) => Ok(ConsumeModel::Never),
        Some(JsonValue::Array(items)) => match item_strings(items@, label + ".consume"@) {
            Ok(list) => Ok(ConsumeModel::Only(list)),
            Err(e) => Err(e),
        },
        Some(_) => Err(message(label, ".consume must be a boolean or a list of strings"@)),
    }
}

/// The `consume` member of `members`.
fn consume_from_json(members: &Vec<(String, JsonValue)>, label: &str) -> (r: Result<
    Consume,
    HooverError,
>)
    ensures
        agrees(r, consume_model(members@, label@), |c: Consume| c@),
{
    match field(members, "consume") {
        None => Ok(Consume::All),
        Some(JsonValue::Null) => Ok(Consume::All),
        Some(JsonValue::Bool(b)) => if *b {
            Ok(Consume::All)
        } else {
            Ok(Consume::Never)
        },
        Some(list) => match list {
            JsonValue::Array(_) => {
                let sub = concat2(label, ".consume");
                match strings_from_json(list, sub.as_str()) {
                    Ok(v) => Ok(Consume::Only(v)),
                    Err(e) => Err(e),
                }
            },
            _ => Err(error(label, ".consume must be a boolean or a list of strings")),
        },
    }
}

// ---------------------------------------------------------------------
// Rule contexts.

/// A filter object with optional `include` and `exclude` lists.
pub open spec fn filter_model(v: JsonValue, label: Seq<char>) -> Result<FilterModel, Seq<char>> {
    match v {
        JsonValue::Object(members) => match opt_strings_model(
            field_of(members@, "include"@),
            label + ".include"@,
        ) {
            Err(e) => Err(e),
            Ok(inc) => match opt_strings_model(
                field_of(members@, "exclude"@),
                label + ".exclude"@,
            ) {
                Err(e) => Err(e),
                Ok(exc) => Ok(FilterModel { included: inc, exclude: exc }),
            },
        },
        _ => Err(message(label, " must be an object"@)),
    }
}

/// A filter object with optional `include` and `exclude` lists.
fn filter_from_json(value: &JsonValue, label: &str) -> (r: Result<HooverRuleFilter, HooverError>)
    ensures
        agrees(r, filter_model(*value, label@), |f: HooverRuleFilter| f@),
{
    let members = match value {
        JsonValue::Object(m) => m,
        _ => {
            return Err(error(label, " must be an object"));
        },
    };
    let inc_label = concat2(label, ".include");
    let inc = match opt_strings(field(members, "include"), inc_label.as_str()) {
        Ok(v) => v,
        Err(e) => {
            return Err(e);
        },
    };
    let exc_label = concat2(label, ".exclude");
    let exc = match opt_strings(field(members, "exclude"), exc_label.as_str()) {
        Ok(v) => v,
        Err(e) => {
            return Err(e);
        },
    };
    Ok(HooverRuleFilter { included: inc, exclude: exc })
}

/// An optional filter object.
pub open spec fn opt_filter_model(v: Option<JsonValue>, label: Seq<char>) -> Result<
    Option<FilterModel>,
    Seq<char>,
> {
    match v {
        None => Ok(None),
        Some(v) => match filter_model(v, label) {
            Ok(f) => Ok(Some(f)),
            Err(e) => Err(e),
        },
    }
}

/// An optional filter object.
fn opt_filter(value: Option<&JsonValue>, label: &str) -> (r: Result<
    Option<HooverRuleFilter>,
    HooverError,
>)
    ensures
        agrees(
            r,
            opt_filter_model(
                match value {
                    Some(v) => Some(*v),
                    None => None,
                },
                label@,
            ),
            |f: Option<HooverRuleFilter>| crate::block::opt_filter_view(f),
        ),
{
    match value {
        None => Ok(None),
        Some(v) => match filter_from_json(v, label) {
            Ok(f) => Ok(Some(f)),
            Err(e) => Err(e),
        },
    }
}

/// A rule-context object: `parent` and `current` filters and a `state`
/// string. A `state` that is not a string (`null` among them) is unset.
pub open spec fn rule_model(v: JsonValue, label: Seq<char>) -> Result<RuleSpecModel, Seq<char>> {
    match v {
        JsonValue::Object(members) => match opt_filter_model(
            field_of(members@, "parent"@),
            label + ".parent"@,
        ) {
            Err(e) => Err(e),
            Ok(parent) => match opt_filter_model(
                field_of(members@, "current"@),
                label + ".current"@,
            ) {
                Err(e) => Err(e),
                Ok(current) => Ok(
                    RuleSpecModel {
                        parent,
                        current,
                        state: opt_text(field_of(members@, "state"@)),
                    },
                ),
            },
        },
        _ => Err(message(label, " must be an object"@)),
    }
}

/// The string of an optional JSON text value.
fn opt_text_exec(value: Option<&JsonValue>) -> (r: Option<String>)
    ensures
        crate::block::opt_string_view(r) == opt_text(
            match value {
                Some(v) => Some(*v),
                None => None,
            },
        ),
{
    match value {
        Some(JsonValue::Text(t)) => Some(t.clone()),
        _ => None,
    }
}

/// The boolean of an optional JSON boolean value.
fn opt_bool_exec(value: Option<&JsonValue>) -> (r: Option<bool>)
    ensures
        r == opt_bool(
            match value {
                Some(v) => Some(*v),
                None => None,
            },
        ),
{
    match value {
        Some(JsonValue::Bool(b)) => Some(*b),
        _ => None,
    }
}

/// A rule-context object.
fn rule_from_json(value: &JsonValue, label: &str) -> (r: Result<HooverRuleSpec, HooverError>)
    ensures
        agrees(r, rule_model(*value, label@), |s: HooverRuleSpec| s@),
{
    let members = match value {
        JsonValue::Object(m) => m,
        _ => {
            return Err(error(label, " must be an object"));
        },
    };
    let parent_label = concat2(label, ".parent");
    let parent = match opt_filter(field(members, "parent"), parent_label.as_str()) {
        Ok(f) => f,
        Err(e) => {
            return Err(e);
        },
    };
    let current_label = concat2(label, ".current");
    let current = match opt_filter(field(members, "current"), current_label.as_str()) {
        Ok(f) => f,
        Err(e) => {
            return Err(e);
        },
    };
    // A JSON null is not the empty string: it means the key carries no
    // value, so the "o" default applies. Only a string is a setting.
    let state = opt_text_exec(field(members, "state"));
    Ok(HooverRuleSpec { parent, current, state })
}

/// An optional rule-context object.
pub open spec fn opt_rule_model(v: Option<JsonValue>, label: Seq<char>) -> Result<
    Option<RuleSpecModel>,
    Seq<char>,
> {
    match v {
        None => Ok(None),
        Some(v) => match rule_model(v, label) {
            Ok(r) => Ok(Some(r)),
            Err(e) => Err(e),
        },
    }
}

// ---------------------------------------------------------------------
// Blocks.

/// How a block is named in error messages: `block` and its name quoted
/// as Rust's Debug quotes a string.
pub open spec fn block_label(name: Seq<char>) -> Seq<char> {
    "block "@ + debug_quoted(name)
}

/// The escape table of an `escape` object: each member whose value is a
/// string maps its key to it, in document order.
pub open spec fn escape_table_of(members: Seq<(String, JsonValue)>) -> Seq<(Seq<char>, Seq<char>)>
    decreases members.len(),
{
    if members.len() == 0 {
        Seq::empty()
    } else {
        let table = escape_table_of(members.drop_last());
        match text_of(members.last().1) {
            Some(r) => escape_insert(table, members.last().0@, r),
            None => table,
        }
    }
}

/// The members of an object value.
pub open spec fn members_of(v: Option<JsonValue>) -> Option<Seq<(String, JsonValue)>> {
    match v {
        Some(JsonValue::Object(m)) => Some(m@),
        _ => None,
    }
}

/// Whether a present member is neither null nor an object.
pub open spec fn misshapen(v: Option<JsonValue>) -> bool {
    match v {
        None => false,
        Some(JsonValue::Null) => false,
        Some(JsonValue::Object(_)) => false,
        Some(_) => true,
    }
}

/// The escape character of an `escapeChar` string: none for the empty
/// string, its one character, or an error for a longer string.
pub open spec fn escape_char_model(text: Option<Seq<char>>, label: Seq<char>) -> Result<
    Option<char>,
    Seq<char>,
> {
    match text {
        None => Ok(None),
        Some(t) => if t.len() == 0 {
            Ok(None)
        } else if t.len() == 1 {
            Ok(Some(t[0]))
        } else {
            Err(message(label, ".escapeChar must be a single character"@))
        },
    }
}

/// The `start` object of a block.
pub open spec fn start_model(members: Seq<(String, JsonValue)>, label: Seq<char>) -> Result<
    StartModel,
    Seq<char>,
> {
    match opt_strings_model(field_of(members, "fixed"@), label + ".fixed"@) {
        Err(e) => Err(e),
        Ok(fixed) => match consume_model(members, label) {
            Err(e) => Err(e),
            Ok(consume) => match opt_rule_model(field_of(members, "rule"@), label + ".rule"@) {
                Err(e) => Err(e),
                Ok(rule) => Ok(StartModel { fixed, consume, rule }),
            },
        },
    }
}

/// The `end` object of a block; absent `fixed` is no delimiters.
pub open spec fn end_model(members: Seq<(String, JsonValue)>, label: Seq<char>) -> Result<
    EndModel,
    Seq<char>,
> {
    match opt_strings_model(field_of(members, "fixed"@), label + ".fixed"@) {
        Err(e) => Err(e),
        Ok(fixed) => match consume_model(members, label) {
            Err(e) => Err(e),
            Ok(consume) => Ok(
                EndModel {
                    fixed: match fixed {
                        Some(f) => f,
                        None => Seq::empty(),
                    },
                    consume,
                },
            ),
        },
    }
}

/// A block object. Present `start` and `end` members must be objects (or
/// null, which is absent); an `escapeChar` must be at most one character;
/// members of other types where a string or boolean is expected are
/// ignored.
pub open spec fn block_model(v: JsonValue) -> Result<BlockModel, Seq<char>> {
    match v {
        JsonValue::Object(members) => {
            let m = members@;
            let name = match opt_text(field_of(m, "name"@)) {
                Some(n) => n,
                None => Seq::empty(),
            };
            let label = block_label(name);
            match escape_char_model(opt_text(field_of(m, "escapeChar"@)), label) {
                Err(e) => Err(e),
                Ok(escape_char) => if misshapen(field_of(m, "start"@)) {
                    Err(message(label, ".start must be an object"@))
                } else if misshapen(field_of(m, "end"@)) {
                    Err(message(label, ".end must be an object"@))
                } else {
                    let start = match members_of(field_of(m, "start"@)) {
                        Some(sm) => match start_model(sm, label + ".start"@) {
                            Ok(s) => Ok(Some(s)),
                            Err(e) => Err(e),
                        },
                        None => Ok(None),
                    };
                    match start {
                        Err(e) => Err(e),
                        Ok(start) => {
                            let end = match members_of(field_of(m, "end"@)) {
                                Some(em) => end_model(em, label + ".end"@),
                                None => Ok(empty_block(name).end),
                            };
                            match end {
                                Err(e) => Err(e),
                                Ok(end) => Ok(
                                    BlockModel {
                                        name,
                                        start,
                                        end,
                                        token: opt_text(field_of(m, "token"@)),
                                        escape_char,
                                        escape: match members_of(field_of(m, "escape"@)) {
                                            Some(em) => escape_table_of(em),
                                            None => Seq::empty(),
                                        },
                                        allow_unknown_escape: opt_bool(
                                            field_of(m, "allowUnknownEscape"@),
                                        ),
                                        preserve_escape_char: opt_bool(
                                            field_of(m, "preserveEscapeChar"@),
                                        ) == Some(true),
                                        trim: opt_bool(field_of(m, "trim"@)) == Some(true),
                                    },
                                ),
                            }
                        },
                    }
                },
            }
        },
        _ => Err("hoover: each block must be an object"@),
    }
}

/// The escape table of an `escape` object.
fn escape_table_from(members: &Vec<(String, JsonValue)>) -> (t: Vec<(String, String)>)
    ensures
        escape_views(t@) == escape_table_of(members@),
{
    let n = members.len();
    let mut t: Vec<(String, String)> = Vec::new();
    let mut i: usize = 0;
    assert(escape_views(t@) =~= Seq::<(Seq<char>, Seq<char>)>::empty());
    while i < n
        invariant
            n == members@.len(),
            i <= n,
            escape_views(t@) == escape_table_of(members@.take(i as int)),
        decreases n - i,
    {
        assert(members@.take(i + 1).drop_last() =~= members@.take(i as int));
        assert(members@.take(i + 1).last() == members@[i as int]);
        match &members[i].1 {
            JsonValue::Text(r) => {
                insert_escape(&mut t, members[i].0.as_str(), r.as_str());
            },
            _ => {},
        }
        i = i + 1;
    }
    assert(members@.take(n as int) =~= members@);
    t
}

/// Whether a present member is neither null nor an object.
fn misshapen_exec(value: Option<&JsonValue>) -> (r: bool)
    ensures
        r == misshapen(
            match value {
                Some(v) => Some(*v),
                None => None,
            },
        ),
{
    match value {
        None => false,
        Some(JsonValue::Null) => false,
        Some(JsonValue::Object(_)) => false,
        Some(_) => true,
    }
}

/// The `start` object of a block.
fn start_from_json(members: &Vec<(String, JsonValue)>, label: &str) -> (r: Result<
    StartSpec,
    HooverError,
>)
    ensures
        agrees(r, start_model(members@, label@), |s: StartSpec| s@),
{
    let fixed_label = concat2(label, ".fixed");
    let fixed = match opt_strings(field(members, "fixed"), fixed_label.as_str()) {
        Ok(f) => f,
        Err(e) => {
            return Err(e);
        },
    };
    let consume = match consume_from_json(members, label) {
        Ok(c) => c,
        Err(e) => {
            return Err(e);
        },
    };
    let rule_label = concat2(label, ".rule");
    let rule = match field(members, "rule") {
        None => None,
        Some(v) => match rule_from_json(v, rule_label.as_str()) {
            Ok(r) => Some(r),
            Err(e) => {
                return Err(e);
            },
        },
    };
    Ok(StartSpec { fixed, consume, rule })
}

/// The `end` object of a block.
fn end_from_json(members: &Vec<(String, JsonValue)>, label: &str) -> (r: Result<
    EndSpec,
    HooverError,
>)
    ensures
        agrees(r, end_model(members@, label@), |e: EndSpec| e@),
{
    let fixed_label = concat2(label, ".fixed");
    let fixed = match opt_strings(field(members, "fixed"), fixed_label.as_str()) {
        Ok(Some(f)) => f,
        Ok(None) => Vec::new(),
        Err(e) => {
            return Err(e);
        },
    };
    assert(fixed@.len() == 0 ==> string_views(fixed@) =~= Seq::<Seq<char>>::empty());
    let consume = match consume_from_json(members, label) {
        Ok(c) => c,
        Err(e) => {
            return Err(e);
        },
    };
    Ok(EndSpec { fixed, consume })
}

/// A block object.
pub fn block_from_json(value: &JsonValue) -> (r: Result<Block, HooverError>)
    ensures
        agrees(r, block_model(*value), |b: Block| b@),
{
    let members = match value {
        JsonValue::Object(m) => m,
        _ => {
            return Err(HooverError("hoover: each block must be an object".to_owned()));
        },
    };
    let name: &str = match field(members, "name") {
        Some(JsonValue::Text(n)) => n.as_str(),
        _ => "",
    };
    proof {
        reveal_strlit("");
    }
    assert(name@ =~= match opt_text(field_of(members@, "name"@)) {
        Some(n) => n,
        None => Seq::<char>::empty(),
    });
    let quoted = debug_str(name);
    let label = concat2("block ", quoted.as_str());
    let mut block = Block::new(name);

    block.token = opt_text_exec(field(members, "token"));
    match field(members, "escapeChar") {
        Some(JsonValue::Text(text)) => {
            let chars = chars_of(text.as_str());
            if chars.len() == 1 {
                block.escape_char = Some(chars[0]);
            } else if chars.len() > 1 {
                return Err(error(label.as_str(), ".escapeChar must be a single character"));
            }
        },
        _ => {},
    }
    match field(members, "escape") {
        Some(JsonValue::Object(table)) => {
            block.escape = escape_table_from(table);
        },
        _ => {},
    }
    block.allow_unknown_escape = opt_bool_exec(field(members, "allowUnknownEscape"));
    block.preserve_escape_char = match opt_bool_exec(field(members, "preserveEscapeChar")) {
        Some(b) => b,
        None => false,
    };
    block.trim = match opt_bool_exec(field(members, "trim")) {
        Some(b) => b,
        None => false,
    };

    // A present `start` or `end` of the wrong shape is a configuration
    // error, not an absent one: silently dropping it would broaden the
    // match to "no fixed delimiter" and hoover unrelated input.
    if misshapen_exec(field(members, "start")) {
        return Err(error(label.as_str(), ".start must be an object"));
    }
    if misshapen_exec(field(members, "end")) {
        return Err(error(label.as_str(), ".end must be an object"));
    }
    match field(members, "start") {
        Some(JsonValue::Object(start)) => {
            let start_label = concat2(label.as_str(), ".start");
            match start_from_json(start, start_label.as_str()) {
                Ok(s) => {
                    block.start = Some(s);
                },
                Err(e) => {
                    return Err(e);
                },
            }
        },
        _ => {},
    }
    match field(members, "end") {
        Some(JsonValue::Object(end)) => {
            let end_label = concat2(label.as_str(), ".end");
            match end_from_json(end, end_label.as_str()) {
                Ok(e) => {
                    block.end = e;
                },
                Err(e) => {
                    return Err(e);
                },
            }
        },
        _ => {},
    }
    Ok(block)
}

// ---------------------------------------------------------------------
// Options.

/// The options read from their data shape: the blocks, in order, and the
/// matcher order's decimal text when one is given.
pub struct JsonOptions {
    pub block: Vec<Block>,
    pub lex_order: Option<String>,
}

/// The model of [`JsonOptions`].
pub struct OptionsModel {
    pub block: Seq<BlockModel>,
    pub lex_order: Option<Seq<char>>,
}

impl View for JsonOptions {
    type V = OptionsModel;

    open spec fn view(&self) -> OptionsModel {
        OptionsModel {
            block: crate::scan::block_views(self.block@),
            lex_order: crate::block::opt_string_view(self.lex_order),
        }
    }
}

/// The blocks of the `block` array, or the error of the first block that
/// cannot be read.
pub open spec fn blocks_model(items: Seq<JsonValue>) -> Result<Seq<BlockModel>, Seq<char>>
    decreases items.len(),
{
    if items.len() == 0 {
        Ok(Seq::empty())
    } else {
        match blocks_model(items.drop_last()) {
            Err(e) => Err(e),
            Ok(blocks) => match block_model(items.last()) {
                Ok(b) => Ok(blocks.push(b)),
                Err(e) => Err(e),
            },
        }
    }
}

/// The options document: an object whose `block` member, when present,
/// is an array of blocks and whose `lex.order`, when `lex` is an object
/// holding `order`, is a number.
pub open spec fn options_model(doc: JsonValue) -> Result<OptionsModel, Seq<char>> {
    match doc {
        JsonValue::Object(members) => {
            let m = members@;
            let blocks = match field_of(m, "block"@) {
                None => Ok(Seq::empty()),
                Some(JsonValue::Array(items)) => blocks_model(items@),
                Some(_) => Err("hoover: options.block must be an array of blocks"@),
            };
            match blocks {
                Err(e) => Err(e),
                Ok(block) => match field_of(m, "lex"@) {
                    Some(JsonValue::Object(lex)) => match field_of(lex@, "order"@) {
                        None => Ok(OptionsModel { block, lex_order: None }),
                        Some(JsonValue::Number(t)) => Ok(OptionsModel { block, lex_order: Some(t@) }),
                        Some(_) => Err("hoover: options.lex.order must be a number"@),
                    },
                    _ => Ok(OptionsModel { block, lex_order: None }),
                },
            }
        },
        _ => Err("hoover: options must be an object"@),
    }
}

/// An error in a prefix of the block items is the error of all of them.
proof fn lemma_blocks_model_prefix_err(items: Seq<JsonValue>, m: int)
    requires
        0 <= m <= items.len(),
        blocks_model(items.take(m)) is Err,
    ensures
        blocks_model(items) == blocks_model(items.take(m)),
    decreases items.len() - m,
{
    if m < items.len() {
        assert(items.take(m + 1).drop_last() =~= items.take(m));
        lemma_blocks_model_prefix_err(items, m + 1);
    } else {
        assert(items.take(m) =~= items);
    }
}

/// The blocks of the `block` array.
fn blocks_from_json(items: &Vec<JsonValue>) -> (r: Result<Vec<Block>, HooverError>)
    ensures
        agrees(r, blocks_model(items@), |v: Vec<Block>| crate::scan::block_views(v@)),
{
    let n = items.len();
    let mut blocks: Vec<Block> = Vec::new();
    let mut i: usize = 0;
    assert(items@.take(0) =~= Seq::<JsonValue>::empty());
    assert(crate::scan::block_views(blocks@) =~= Seq::<BlockModel>::empty());
    while i < n
        invariant
            n == items@.len(),
            i <= n,
            blocks_model(items@.take(i as int)) == Ok::<_, Seq<char>>(
                crate::scan::block_views(blocks@),
            ),
        decreases n - i,
    {
        assert(items@.take(i + 1).drop_last() =~= items@.take(i as int));
        assert(items@.take(i + 1).last() == items@[i as int]);
        match block_from_json(&items[i]) {
            Ok(b) => {
                let ghost before = blocks@;
                blocks.push(b);
                assert(crate::scan::block_views(blocks@) =~= crate::scan::block_views(before).push(
                    b@,
                ));
            },
            Err(e) => {
                proof {
                    lemma_blocks_model_prefix_err(items@, i as int + 1);
                }
                return Err(e);
            },
        }
        i = i + 1;
    }
    assert(items@.take(n as int) =~= items@);
    Ok(blocks)
}

/// Read the options from their data shape, `{"block": [...], "lex":
/// {"order": n}}`. Keys are matched exactly, then ignoring ASCII case.
/// `fixed` may be a string or a list, `consume` a boolean or a list, and
/// `"state": ""` means "do not check the state". An `escapeChar` longer
/// than one character, or a value of the wrong type where the shape is
/// fixed, is an error; unknown keys are ignored.
pub fn options_from_json(document: &JsonValue) -> (r: Result<JsonOptions, HooverError>)
    ensures
        agrees(r, options_model(*document), |o: JsonOptions| o@),
{
    let members = match document {
        JsonValue::Object(m) => m,
        _ => {
            return Err(HooverError("hoover: options must be an object".to_owned()));
        },
    };
    let block = match field(members, "block") {
        None => Vec::new(),
        Some(JsonValue::Array(items)) => match blocks_from_json(items) {
            Ok(b) => b,
            Err(e) => {
                return Err(e);
            },
        },
        Some(_) => {
            return Err(HooverError("hoover: options.block must be an array of blocks".to_owned()));
        },
    };
    assert(block@.len() == 0 ==> crate::scan::block_views(block@) =~= Seq::<BlockModel>::empty());
    let lex_order = match field(members, "lex") {
        Some(JsonValue::Object(lex)) => match field(lex, "order") {
            None => None,
            Some(JsonValue::Number(t)) => Some(t.clone()),
            Some(_) => {
                return Err(HooverError("hoover: options.lex.order must be a number".to_owned()));
            },
        },
        _ => None,
    };
    Ok(JsonOptions { block, lex_order })
}

} // verus!
