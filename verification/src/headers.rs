//! Header collections, kept in `hyper`'s `HeaderMap`.

use vstd::prelude::*;
use vstd::string::*;
use vstd::utf8::encode_utf8;
use crate::filters::{
    changes, HeaderChange, HeaderModifierOp, RequestHeaderModifier, ResponseHeaderModifier,
};
use crate::text::lower_text;

verus! {

/// The header collection of `hyper`.
#[verifier::external_type_specification]
#[verifier::external_body]
#[verifier::reject_recursive_types(T)]
pub struct ExHeaderMap<T>(hyper::header::HeaderMap<T>);

/// A header value of `hyper`.
#[verifier::external_type_specification]
#[verifier::external_body]
pub struct ExHeaderValue(hyper::header::HeaderValue);

/// What a header collection holds: for each name, in lower case, its values in order.
pub uninterp spec fn header_values(
    headers: hyper::header::HeaderMap<hyper::header::HeaderValue>,
) -> Map<Seq<char>, Seq<Seq<u8>>>;

/// The number of names that a header collection always has room for.
pub const MAX_HEADER_NAMES: usize = 6553;

/// Whether a character may stand in a header name.
pub open spec fn is_token_char(c: char) -> bool {
    ||| 'a' <= c <= 'z'
    ||| 'A' <= c <= 'Z'
    ||| '0' <= c <= '9'
    ||| c == '!' || c == '#' || c == '$' || c == '%' || c == '&' || c == '\'' || c == '*'
    ||| c == '+' || c == '-' || c == '.' || c == '^' || c == '_' || c == '`' || c == '|' || c == '~'
}

/// Whether a text is a header name.
pub open spec fn valid_header_name(name: Seq<char>) -> bool {
    &&& 0 < name.len() <= 65535
    &&& forall|i: int| 0 <= i < name.len() ==> is_token_char(#[trigger] name[i])
}

/// Whether a text is a header value: no control character but the tab.
pub open spec fn valid_header_value(value: Seq<char>) -> bool {
    forall|i: int|
        0 <= i < value.len() ==> ((#[trigger] value[i]) as u32 >= 32 && value[i] as u32 != 127)
            || value[i] == '\t'
}

/// Whether a header collection holds so many names.
pub open spec fn has_names(headers: Map<Seq<char>, Seq<Seq<u8>>>, n: nat) -> bool {
    headers.dom().finite() && headers.dom().len() == n
}

/// `hyper::header::HeaderName::from_bytes`: accepts exactly the token characters, at least one and
/// at most 65535 of them, and answers anything else with one fixed text.
#[verifier::external_body]
pub(crate) fn header_name_error(name: &str) -> (r: Option<String>)
    ensures
        r is None <==> valid_header_name(name@),
        match r {
            Some(text) => text@ == "invalid HTTP header name"@,
            None => true,
        },
{
    hyper::header::HeaderName::from_bytes(name.as_bytes()).err().map(|e| e.to_string())
}

/// `hyper::header::HeaderValue::from_str`: accepts every text without control characters other
/// than the tab, and answers anything else with one fixed text.
#[verifier::external_body]
pub(crate) fn header_value_error(value: &str) -> (r: Option<String>)
    ensures
        r is None <==> valid_header_value(value@),
        match r {
            Some(text) => text@ == "failed to parse header value"@,
            None => true,
        },
{
    hyper::header::HeaderValue::from_str(value).err().map(|e| e.to_string())
}

/// `hyper::header::HeaderMap::keys_len`: the number of names, of which there are finitely many.
#[verifier::external_body]
pub(crate) fn header_name_count(
    headers: &hyper::header::HeaderMap<hyper::header::HeaderValue>,
) -> (r: usize)
    ensures
        has_names(header_values(*headers), r as nat),
{
    headers.keys_len()
}

/// `hyper::header::HeaderMap::insert`: all values of the name give way to the one value. The call
/// panics when the collection cannot grow, which does not happen below [`MAX_HEADER_NAMES`].
#[verifier::external_body]
pub(crate) fn header_insert(
    headers: &mut hyper::header::HeaderMap<hyper::header::HeaderValue>,
    name: &str,
    value: &str,
)
    requires
        valid_header_name(name@),
        valid_header_value(value@),
        header_values(*old(headers)).dom().finite(),
        header_values(*old(headers)).dom().len() < MAX_HEADER_NAMES,
    ensures
        header_values(*final(headers)) == header_values(*old(headers)).insert(
            lower_text(name@),
            seq![encode_utf8(value@)],
        ),
{
    let key = hyper::header::HeaderName::from_bytes(name.as_bytes()).unwrap();
    headers.insert(key, hyper::header::HeaderValue::from_str(value).unwrap());
}

/// `hyper::header::HeaderMap::append`: the value is added behind the values that the name has. The
/// call panics when the collection cannot grow, which does not happen below
/// [`MAX_HEADER_NAMES`].
#[verifier::external_body]
pub(crate) fn header_append(
    headers: &mut hyper::header::HeaderMap<hyper::header::HeaderValue>,
    name: &str,
    value: &str,
)
    requires
        valid_header_name(name@),
        valid_header_value(value@),
        header_values(*old(headers)).dom().finite(),
        header_values(*old(headers)).dom().len() < MAX_HEADER_NAMES,
    ensures
        header_values(*final(headers)) == header_values(*old(headers)).insert(
            lower_text(name@),
            values_of(header_values(*old(headers)), lower_text(name@)).push(encode_utf8(value@)),
        ),
{
    let key = hyper::header::HeaderName::from_bytes(name.as_bytes()).unwrap();
    headers.append(key, hyper::header::HeaderValue::from_str(value).unwrap());
}

/// `hyper::header::HeaderMap::remove`: the name is gone with all its values.
#[verifier::external_body]
pub(crate) fn header_remove(
    headers: &mut hyper::header::HeaderMap<hyper::header::HeaderValue>,
    name: &str,
)
    requires
        valid_header_name(name@),
    ensures
        header_values(*final(headers)) == header_values(*old(headers)).remove(lower_text(name@)),
{
    headers.remove(name);
}

/// `hyper::header::HeaderMap::get`: the first value of the name. A name that is there has a
/// value.
#[verifier::external_body]
pub(crate) fn header_first(
    headers: &hyper::header::HeaderMap<hyper::header::HeaderValue>,
    name: &str,
) -> (r: Option<Vec<u8>>)
    requires
        valid_header_name(name@),
    ensures
        match r {
            Some(v) => {
                &&& header_values(*headers).contains_key(lower_text(name@))
                &&& header_values(*headers)[lower_text(name@)].len() > 0
                &&& header_values(*headers)[lower_text(name@)][0] == v@
            },
            None => !header_values(*headers).contains_key(lower_text(name@)),
        },
{
    headers.get(name).map(|v| v.as_bytes().to_vec())
}

/// `Clone` of `hyper::header::HeaderMap`: the copy holds the same.
#[verifier::external_body]
pub(crate) fn header_copy(
    headers: &hyper::header::HeaderMap<hyper::header::HeaderValue>,
) -> (r: hyper::header::HeaderMap<hyper::header::HeaderValue>)
    ensures
        header_values(r) == header_values(*headers),
{
    headers.clone()
}

/// The values of a name, none where the name is not there.
pub open spec fn values_of(
    headers: Map<Seq<char>, Seq<Seq<u8>>>,
    name: Seq<char>,
) -> Seq<Seq<u8>> {
    if headers.contains_key(name) {
        headers[name]
    } else {
        Seq::empty()
    }
}

/// The text of an invalid header name.
pub open spec fn invalid_name_text(name: Seq<char>) -> Seq<char> {
    "Invalid header name '"@ + name + "': "@ + "invalid HTTP header name"@
}

/// The text of an invalid header value.
pub open spec fn invalid_value_text(value: Seq<char>) -> Seq<char> {
    "Invalid header value '"@ + value + "': "@ + "failed to parse header value"@
}

/// Why a change cannot be made; `None` where it can.
pub open spec fn change_error(change: HeaderChange) -> Option<Seq<char>> {
    match change {
        HeaderChange::Replace(name, value) | HeaderChange::Add(name, value) => {
            if !valid_header_name(name) {
                Some(invalid_name_text(name))
            } else if !valid_header_value(value) {
                Some(invalid_value_text(value))
            } else {
                None
            }
        },
        HeaderChange::Remove(name) => if !valid_header_name(name) {
            Some(invalid_name_text(name))
        } else {
            None
        },
    }
}

/// A header collection after a change.
pub open spec fn changed(
    headers: Map<Seq<char>, Seq<Seq<u8>>>,
    change: HeaderChange,
) -> Map<Seq<char>, Seq<Seq<u8>>> {
    match change {
        HeaderChange::Replace(name, value) => headers.insert(
            lower_text(name),
            seq![encode_utf8(value)],
        ),
        HeaderChange::Add(name, value) => headers.insert(
            lower_text(name),
            values_of(headers, lower_text(name)).push(encode_utf8(value)),
        ),
        HeaderChange::Remove(name) => headers.remove(lower_text(name)),
    }
}

/// A header collection after changes from the `i`th on, and the error at which they stopped.
pub open spec fn changed_all(
    headers: Map<Seq<char>, Seq<Seq<u8>>>,
    list: Seq<HeaderChange>,
    i: nat,
) -> (Map<Seq<char>, Seq<Seq<u8>>>, Option<Seq<char>>)
    decreases list.len() - i,
{
    if i >= list.len() {
        (headers, None)
    } else {
        match change_error(list[i as int]) {
            Some(text) => (headers, Some(text)),
            None => changed_all(changed(headers, list[i as int]), list, i + 1),
        }
    }
}

/// Whether a header collection surely has room for more names.
pub open spec fn room_for(headers: Map<Seq<char>, Seq<Seq<u8>>>, n: nat) -> bool {
    headers.dom().finite() && headers.dom().len() + n <= MAX_HEADER_NAMES
}

/// Whether a header collection surely has room for more names.
pub fn has_room_for(
    headers: &hyper::header::HeaderMap<hyper::header::HeaderValue>,
    n: usize,
) -> (r: bool)
    ensures
        r == room_for(header_values(*headers), n as nat),
{
    let count: usize = header_name_count(headers);
    count <= MAX_HEADER_NAMES && n <= MAX_HEADER_NAMES - count
}

/// Writes the text of an invalid header name or value.
fn invalid_text(label: &str, subject: &str, why: &str) -> (r: String)
    ensures
        r@ == label@ + subject@ + "': "@ + why@,
{
    let mut s = label.to_owned();
    s.append(subject);
    s.append("': ");
    s.append(why);
    s
}

/// Checks a header name.
fn check_name(name: &str) -> (r: Result<(), String>)
    ensures
        r is Ok <==> valid_header_name(name@),
        r is Err ==> r->Err_0@ == invalid_name_text(name@),
{
    match header_name_error(name) {
        Some(why) => Err(invalid_text("Invalid header name '", name, why.as_str())),
        None => Ok(()),
    }
}

/// Checks a header value.
fn check_value(value: &str) -> (r: Result<(), String>)
    ensures
        r is Ok <==> valid_header_value(value@),
        r is Err ==> r->Err_0@ == invalid_value_text(value@),
{
    match header_value_error(value) {
        Some(why) => Err(invalid_text("Invalid header value '", value, why.as_str())),
        None => Ok(()),
    }
}

/// Makes one change.
fn apply_change(
    headers: &mut hyper::header::HeaderMap<hyper::header::HeaderValue>,
    op: &HeaderModifierOp,
) -> (r: Result<(), String>)
    requires
        room_for(header_values(*old(headers)), 1),
    ensures
        match change_error(op@) {
            Some(text) => r is Err && r->Err_0@ == text && *final(headers) == *old(headers),
            None => r is Ok && header_values(*final(headers)) == changed(
                header_values(*old(headers)),
                op@,
            ),
        },
{
    match op {
        HeaderModifierOp::Replace { name, value } => {
            match check_name(name.as_str()) {
                Ok(_) => {},
                Err(e) => {
                    return Err(e);
                },
            }
            match check_value(value.as_str()) {
                Ok(_) => {},
                Err(e) => {
                    return Err(e);
                },
            }
            header_insert(headers, name.as_str(), value.as_str());
            Ok(())
        },
        HeaderModifierOp::Add { name, value } => {
            match check_name(name.as_str()) {
                Ok(_) => {},
                Err(e) => {
                    return Err(e);
                },
            }
            match check_value(value.as_str()) {
                Ok(_) => {},
                Err(e) => {
                    return Err(e);
                },
            }
            header_append(headers, name.as_str(), value.as_str());
            Ok(())
        },
        HeaderModifierOp::Remove { name } => {
            match check_name(name.as_str()) {
                Ok(_) => {},
                Err(e) => {
                    return Err(e);
                },
            }
            header_remove(headers, name.as_str());
            Ok(())
        },
    }
}

/// Makes header changes in order, up to the first that cannot be made.
pub fn apply_header_filters(
    headers: &mut hyper::header::HeaderMap<hyper::header::HeaderValue>,
    operations: &Vec<HeaderModifierOp>,
) -> (r: Result<(), String>)
    requires
        room_for(header_values(*old(headers)), operations@.len()),
    ensures
        ({
            let (after, error) = changed_all(
                header_values(*old(headers)),
                changes(operations@),
                0,
            );
            &&& header_values(*final(headers)) == after
            &&& match error {
                Some(text) => r is Err && r->Err_0@ == text,
                None => r is Ok,
            }
        }),
{
    let ghost list = changes(operations@);
    let ghost start = header_values(*headers);
    let mut i: usize = 0;
    while i < operations.len()
        invariant
            i <= operations.len(),
            list == changes(operations@),
            start == header_values(*old(headers)),
            room_for(header_values(*headers), (operations@.len() - i) as nat),
            changed_all(header_values(*headers), list, i as nat) == changed_all(start, list, 0),
        decreases operations.len() - i,
    {
        let ghost before = header_values(*headers);
        assert(list[i as int] == operations@[i as int]@);
        match apply_change(headers, &operations[i]) {
            Ok(_) => {
                proof {
                    let after = header_values(*headers);
                    assert(after == changed(before, list[i as int]));
                    match list[i as int] {
                        HeaderChange::Replace(name, value) => {
                            assert(after.dom() =~= before.dom().insert(lower_text(name)));
                        },
                        HeaderChange::Add(name, value) => {
                            assert(after.dom() =~= before.dom().insert(lower_text(name)));
                        },
                        HeaderChange::Remove(name) => {
                            assert(after.dom() =~= before.dom().remove(lower_text(name)));
                        },
                    }
                }
            },
            Err(e) => {
                return Err(e);
            },
        }
        i += 1;
    }
    Ok(())
}

/// Makes a route's changes to the headers of a request.
pub fn apply_request_filters(
    headers: &mut hyper::header::HeaderMap<hyper::header::HeaderValue>,
    filters: &RequestHeaderModifier,
) -> (r: Result<(), String>)
    requires
        room_for(header_values(*old(headers)), filters.operations@.len()),
    ensures
        ({
            let (after, error) = changed_all(
                header_values(*old(headers)),
                changes(filters.operations@),
                0,
            );
            &&& header_values(*final(headers)) == after
            &&& match error {
                Some(text) => r is Err && r->Err_0@ == text,
                None => r is Ok,
            }
        }),
{
    apply_header_filters(headers, &filters.operations)
}

/// Makes a route's changes to the headers of a response.
pub fn apply_response_filters(
    headers: &mut hyper::header::HeaderMap<hyper::header::HeaderValue>,
    filters: &ResponseHeaderModifier,
) -> (r: Result<(), String>)
    requires
        room_for(header_values(*old(headers)), filters.operations@.len()),
    ensures
        ({
            let (after, error) = changed_all(
                header_values(*old(headers)),
                changes(filters.operations@),
                0,
            );
            &&& header_values(*final(headers)) == after
            &&& match error {
                Some(text) => r is Err && r->Err_0@ == text,
                None => r is Ok,
            }
        }),
{
    apply_header_filters(headers, &filters.operations)
}

/// Whether bytes are visible ASCII text, tabs included.
pub open spec fn is_visible(bytes: Seq<u8>) -> bool {
    forall|i: int| 0 <= i < bytes.len() ==> (32 <= (#[trigger] bytes[i]) < 127) || bytes[i] == 9
}

/// The text of ASCII bytes.
pub open spec fn ascii_text(bytes: Seq<u8>) -> Seq<char> {
    Seq::new(bytes.len(), |i: int| bytes[i] as char)
}

/// The text of bytes that are visible ASCII; `None` where they are not.
pub fn visible_text(bytes: &Vec<u8>) -> (r: Option<String>)
    ensures
        match r {
            Some(s) => is_visible(bytes@) && s@ == ascii_text(bytes@),
            None => !is_visible(bytes@),
        },
{
    let mut s = String::new();
    let mut i: usize = 0;
    while i < bytes.len()
        invariant
            i <= bytes.len(),
            forall|j: int| 0 <= j < i ==> (32 <= (#[trigger] bytes@[j]) < 127) || bytes@[j] == 9,
            s@ == ascii_text(bytes@.take(i as int)),
        decreases bytes.len() - i,
    {
        let b: u8 = bytes[i];
        if !((b >= 32 && b < 127) || b == 9) {
            return None;
        }
        s.push(b as char);
        assert(ascii_text(bytes@.take(i as int + 1)) =~= ascii_text(bytes@.take(i as int)).push(
            b as char,
        ));
        i += 1;
    }
    assert(bytes@.take(i as int) =~= bytes@);
    Some(s)
}

/// The first value of a header as text, where it is there and visible.
pub open spec fn header_text(
    headers: Map<Seq<char>, Seq<Seq<u8>>>,
    name: Seq<char>,
) -> Option<Seq<char>> {
    if headers.contains_key(name) && is_visible(headers[name][0]) {
        Some(ascii_text(headers[name][0]))
    } else {
        None
    }
}

/// Reads the first value of a header as text.
pub fn read_header(
    headers: &hyper::header::HeaderMap<hyper::header::HeaderValue>,
    name: &str,
) -> (r: Option<String>)
    requires
        valid_header_name(name@),
    ensures
        match header_text(header_values(*headers), lower_text(name@)) {
            Some(text) => r is Some && r->0@ == text,
            None => r is None,
        },
{
    match header_first(headers, name) {
        Some(bytes) => visible_text(&bytes),
        None => None,
    }
}

/// A change that was made put no line break into a header: names and values that hold one are
/// refused.
pub proof fn lemma_no_line_breaks(change: HeaderChange)
    ensures
        change_error(change) is None ==> match change {
            HeaderChange::Replace(name, value) | HeaderChange::Add(name, value) => {
                &&& !name.contains('\r') && !name.contains('\n')
                &&& !value.contains('\r') && !value.contains('\n')
            },
            HeaderChange::Remove(name) => !name.contains('\r') && !name.contains('\n'),
        },
{
}

/// A change touches no other header than the one it names.
pub proof fn lemma_change_is_local(
    headers: Map<Seq<char>, Seq<Seq<u8>>>,
    change: HeaderChange,
    other: Seq<char>,
)
    requires
        match change {
            HeaderChange::Replace(name, _) | HeaderChange::Add(name, _) | HeaderChange::Remove(
                name,
            ) => other != lower_text(name),
        },
    ensures
        values_of(changed(headers, change), other) == values_of(headers, other),
        changed(headers, change).contains_key(other) == headers.contains_key(other),
{
}

/// Setting a header leaves one value, adding keeps the earlier ones, and removing leaves none.
pub proof fn lemma_change_effect(
    headers: Map<Seq<char>, Seq<Seq<u8>>>,
    name: Seq<char>,
    value: Seq<char>,
)
    ensures
        values_of(changed(headers, HeaderChange::Replace(name, value)), lower_text(name)) == seq![
            encode_utf8(value),
        ],
        values_of(changed(headers, HeaderChange::Add(name, value)), lower_text(name)) == values_of(
            headers,
            lower_text(name),
        ).push(encode_utf8(value)),
        !changed(headers, HeaderChange::Remove(name)).contains_key(lower_text(name)),
{
}

/// Reading a header as text gives back its first value, character for byte, exactly if that value
/// holds visible ASCII and tabs only.
pub proof fn lemma_header_is_read(headers: Map<Seq<char>, Seq<Seq<u8>>>, name: Seq<char>)
    ensures
        header_text(headers, name) is Some <==> headers.contains_key(name) && forall|i: int|
            0 <= i < headers[name][0].len() ==> (#[trigger] headers[name][0][i]) == 9 || 32
                <= headers[name][0][i] <= 126,
        header_text(headers, name) matches Some(text) ==> {
            &&& text.len() == headers[name][0].len()
            &&& forall|i: int|
                0 <= i < text.len() ==> (#[trigger] text[i]) as u32 == headers[name][0][i] as u32
        },
{
}

/// A change can be made exactly if its name is a header name and its value, where it has one, is a
/// header value. An error tells which of them is not.
pub proof fn lemma_change_is_possible(change: HeaderChange)
    ensures
        ({
            let name = match change {
                HeaderChange::Replace(n, _) => n,
                HeaderChange::Add(n, _) => n,
                HeaderChange::Remove(n) => n,
            };
            let value = match change {
                HeaderChange::Replace(_, v) => Some(v),
                HeaderChange::Add(_, v) => Some(v),
                HeaderChange::Remove(_) => None,
            };
            &&& change_error(change) is None <==> valid_header_name(name) && (value matches Some(v)
                ==> valid_header_value(v))
            &&& !valid_header_name(name) ==> change_error(change) == Some(
                "Invalid header name '"@ + name + "': "@ + "invalid HTTP header name"@,
            )
            &&& valid_header_name(name) ==> (change_error(change) matches Some(text) ==> value
                is Some && text == "Invalid header value '"@ + value->0 + "': "@
                + "failed to parse header value"@)
        }),
{
}

/// What a single change does: setting leaves the header with that value alone, adding puts the value
/// behind those that are there, and removing leaves no value; no other header is touched.
pub proof fn lemma_change_is_exact(
    headers: Map<Seq<char>, Seq<Seq<u8>>>,
    change: HeaderChange,
    other: Seq<char>,
)
    ensures
        ({
            let after = changed(headers, change);
            match change {
                HeaderChange::Replace(name, value) => {
                    let key = lower_text(name);
                    &&& after.contains_key(key) && after[key] == seq![encode_utf8(value)]
                    &&& other != key ==> after.contains_key(other) == headers.contains_key(other)
                        && after[other] == headers[other]
                },
                HeaderChange::Add(name, value) => {
                    let key = lower_text(name);
                    &&& after.contains_key(key) && after[key].last() == encode_utf8(value)
                    &&& headers.contains_key(key) ==> after[key].drop_last() == headers[key]
                    &&& !headers.contains_key(key) ==> after[key].len() == 1
                    &&& other != key ==> after.contains_key(other) == headers.contains_key(other)
                        && after[other] == headers[other]
                },
                HeaderChange::Remove(name) => {
                    let key = lower_text(name);
                    &&& !after.contains_key(key)
                    &&& other != key ==> after.contains_key(other) == headers.contains_key(other)
                        && (headers.contains_key(other) ==> after[other] == headers[other])
                },
            }
        }),
{
}

proof fn lemma_changed_all_shifts(
    headers: Map<Seq<char>, Seq<Seq<u8>>>,
    first: HeaderChange,
    rest: Seq<HeaderChange>,
    i: nat,
)
    ensures
        changed_all(headers, seq![first] + rest, i + 1) == changed_all(headers, rest, i),
    decreases rest.len() - i,
{
    let list = seq![first] + rest;
    if i < rest.len() {
        assert(list[i as int + 1] == rest[i as int]);
        if change_error(rest[i as int]) is None {
            lemma_changed_all_shifts(changed(headers, rest[i as int]), first, rest, i + 1);
        }
    }
}

/// A list of changes is made one after the other, each on what the ones before it left, none of them
/// skipped. The first one that cannot be made ends the list: those before it stay made, and its
/// error is told.
pub proof fn lemma_changes_are_made_in_turn(
    headers: Map<Seq<char>, Seq<Seq<u8>>>,
    first: HeaderChange,
    rest: Seq<HeaderChange>,
)
    ensures
        changed_all(headers, Seq::empty(), 0) == (headers, None::<Seq<char>>),
        change_error(first) is None ==> changed_all(headers, seq![first] + rest, 0) == changed_all(
            changed(headers, first),
            rest,
            0,
        ),
        change_error(first) is Some ==> changed_all(headers, seq![first] + rest, 0) == (
            headers,
            change_error(first),
        ),
{
    let list = seq![first] + rest;
    assert(list[0] == first);
    if change_error(first) is None {
        lemma_changed_all_shifts(changed(headers, first), first, rest, 0);
    }
}

/// A header collection has room for more names as long as there are no more than 6553 in all.
pub proof fn lemma_room_is_counted(headers: Map<Seq<char>, Seq<Seq<u8>>>, n: nat)
    requires
        headers.dom().finite(),
    ensures
        room_for(headers, n) <==> headers.dom().len() + n <= 6553,
{
}

} // verus!
