//! Percent encoding, form bodies and cookies.

use crate::table::Table;
use crate::text::{
    chars_of, halves, hex_char, is_white, law_padding_is_trimmed, law_pieces_of_two, lemma_position,
    lower, lowered, pieces, same_text, split, split_once, strip, text_of, trimmed, views, Strip,
};
use vstd::prelude::*;
use vstd::string::*;
use vstd::utf8::*;

verus! {

// ---------------------------------------------------------------------------------------------
// Percent encoding
// ---------------------------------------------------------------------------------------------

/// What `String::from_utf8_lossy` of std makes of bytes that are not valid UTF-8.
pub uninterp spec fn lossy_text(bytes: Seq<u8>) -> Seq<char>;

/// `String::from_utf8_lossy` of std: bytes that are valid UTF-8 are the text that they encode;
/// of others the text is a function of the bytes.
#[verifier::external_body]
pub(crate) fn from_utf8_lossy(bytes: &[u8]) -> (text: String)
    ensures
        valid_utf8(bytes@) ==> text@ == decode_utf8(bytes@),
        !valid_utf8(bytes@) ==> text@ == lossy_text(bytes@),
{
    String::from_utf8_lossy(bytes).into_owned()
}

/// The text of some bytes.
pub open spec fn bytes_text(bytes: Seq<u8>) -> Seq<char> {
    if valid_utf8(bytes) {
        decode_utf8(bytes)
    } else {
        lossy_text(bytes)
    }
}

/// The value of a hexadecimal digit.
pub open spec fn hex_value(byte: u8) -> Option<u8> {
    if 0x30 <= byte <= 0x39 {
        Some((byte - 0x30) as u8)
    } else if 0x61 <= byte <= 0x66 {
        Some((byte - 0x61 + 10) as u8)
    } else if 0x41 <= byte <= 0x46 {
        Some((byte - 0x41 + 10) as u8)
    } else {
        None
    }
}

/// The value of two bytes as a hexadecimal number, whose first digit may be a plus sign.
pub open spec fn hex_pair(first: u8, second: u8) -> Option<u8> {
    match hex_value(second) {
        Some(low) => if first == 0x2b {
            Some(low)
        } else {
            match hex_value(first) {
                Some(high) => Some((16 * high + low) as u8),
                None => None,
            }
        },
        None => None,
    }
}

/// The bytes that percent encoding stands for: a plus sign is a space, and a percent sign with two
/// bytes behind it is the byte of that value. Where they have none, or there are fewer than two,
/// the percent sign stays and the bytes behind it are dropped.
pub open spec fn decoded(raw: Seq<u8>) -> Seq<u8>
    decreases raw.len(),
{
    if raw.len() == 0 {
        seq![]
    } else if raw[0] == 0x2b {
        seq![0x20u8] + decoded(raw.skip(1))
    } else if raw[0] != 0x25 {
        seq![raw[0]] + decoded(raw.skip(1))
    } else if raw.len() < 3 {
        seq![0x25u8]
    } else {
        match hex_pair(raw[1], raw[2]) {
            Some(value) => seq![value] + decoded(raw.skip(3)),
            None => seq![0x25u8] + decoded(raw.skip(3)),
        }
    }
}

/// The text that a percent-encoded text stands for.
pub open spec fn percent_decoded(raw: Seq<char>) -> Seq<char> {
    bytes_text(decoded(encode_utf8(raw)))
}

fn hex_digit(byte: u8) -> (value: Option<u8>)
    ensures
        value == hex_value(byte),
        value matches Some(value) ==> value < 16,
{
    if 0x30 <= byte && byte <= 0x39 {
        Some(byte - 0x30)
    } else if 0x61 <= byte && byte <= 0x66 {
        Some(byte - 0x61 + 10)
    } else if 0x41 <= byte && byte <= 0x46 {
        Some(byte - 0x41 + 10)
    } else {
        None
    }
}

fn hex_byte(first: u8, second: u8) -> (value: Option<u8>)
    ensures
        value == hex_pair(first, second),
{
    let low = match hex_digit(second) {
        Some(low) => low,
        None => {
            return None;
        },
    };
    if first == 0x2b {
        return Some(low);
    }
    match hex_digit(first) {
        Some(high) => Some(16 * high + low),
        None => None,
    }
}

/// Undoes percent encoding on bytes.
pub fn decode_bytes(raw: &[u8]) -> (bytes: Vec<u8>)
    ensures
        bytes@ == decoded(raw@),
{
    let mut bytes: Vec<u8> = Vec::new();
    let mut i: usize = 0;
    assert(raw@.skip(0) =~= raw@);
    assert(bytes@ + decoded(raw@) =~= decoded(raw@));
    while i < raw.len()
        invariant
            i <= raw@.len(),
            bytes@ + decoded(raw@.skip(i as int)) == decoded(raw@),
        decreases raw@.len() - i,
    {
        let ghost rest = raw@.skip(i as int);
        let ghost before = bytes@;
        let byte = raw[i];
        if byte == 0x2b {
            bytes.push(0x20);
            assert(rest.skip(1) =~= raw@.skip(i + 1));
            i += 1;
        } else if byte != 0x25 {
            bytes.push(byte);
            assert(rest.skip(1) =~= raw@.skip(i + 1));
            i += 1;
        } else if raw.len() - i < 3 {
            bytes.push(0x25);
            assert(bytes@ =~= before + seq![0x25u8]);
            return bytes;
        } else {
            match hex_byte(raw[i + 1], raw[i + 2]) {
                Some(value) => {
                    bytes.push(value);
                },
                None => {
                    bytes.push(0x25);
                },
            }
            assert(rest.skip(3) =~= raw@.skip(i + 3));
            i += 3;
        }
        assert(before + (seq![bytes@.last()] + decoded(raw@.skip(i as int))) =~= bytes@ + decoded(
            raw@.skip(i as int),
        ));
    }
    assert(bytes@ + decoded(raw@.skip(i as int)) =~= bytes@);
    bytes
}

/// Undoes percent encoding.
pub fn percent_decode(raw: &str) -> (text: String)
    ensures
        text@ == percent_decoded(raw@),
{
    let bytes = decode_bytes(raw.as_bytes());
    from_utf8_lossy(bytes.as_slice())
}

/// Whether percent-encoded bytes stand for others: a plus sign for a space, a percent sign with two
/// hexadecimal digits for the byte of that value, and any other byte for itself.
pub open spec fn encodes(raw: Seq<u8>, bytes: Seq<u8>) -> bool
    decreases bytes.len(),
{
    if bytes.len() == 0 {
        raw.len() == 0
    } else if raw.len() == 0 {
        false
    } else if raw[0] == 0x2b {
        bytes[0] == 0x20 && encodes(raw.skip(1), bytes.skip(1))
    } else if raw[0] != 0x25 {
        bytes[0] == raw[0] && encodes(raw.skip(1), bytes.skip(1))
    } else {
        &&& raw.len() >= 3
        &&& hex_value(raw[1]) is Some
        &&& hex_pair(raw[1], raw[2]) == Some(bytes[0])
        &&& encodes(raw.skip(3), bytes.skip(1))
    }
}

proof fn lemma_encodes(raw: Seq<u8>, bytes: Seq<u8>)
    requires
        encodes(raw, bytes),
    ensures
        decoded(raw) == bytes,
    decreases bytes.len(),
{
    if bytes.len() > 0 {
        let rest = bytes.skip(1);
        if raw[0] == 0x25 {
            lemma_encodes(raw.skip(3), rest);
        } else {
            lemma_encodes(raw.skip(1), rest);
        }
        assert(decoded(raw) =~= seq![bytes[0]] + rest);
        assert(seq![bytes[0]] + rest =~= bytes);
    } else {
        assert(decoded(raw) =~= bytes);
    }
}

/// Percent encoding is undone, whichever characters of a text were escaped.
pub proof fn law_encoding_is_undone(raw: Seq<char>, text: Seq<char>)
    requires
        encodes(encode_utf8(raw), encode_utf8(text)),
    ensures
        percent_decoded(raw) == text,
{
    lemma_encodes(encode_utf8(raw), encode_utf8(text));
    encode_utf8_valid_utf8(text);
    encode_utf8_decode_utf8(text);
}

/// Bytes with each of them escaped.
pub open spec fn escaped(bytes: Seq<u8>) -> Seq<char>
    decreases bytes.len(),
{
    if bytes.len() == 0 {
        seq![]
    } else {
        seq!['%', hex_char(bytes[0] as int / 16), hex_char(bytes[0] as int % 16)] + escaped(
            bytes.skip(1),
        )
    }
}

proof fn lemma_escaped(bytes: Seq<u8>)
    ensures
        is_ascii_chars(escaped(bytes)),
        encodes(encode_utf8(escaped(bytes)), bytes),
        forall|i: int| 0 <= i < escaped(bytes).len() ==> #[trigger] escaped(bytes)[i] != '&',
    decreases bytes.len(),
{
    let text = escaped(bytes);
    if bytes.len() > 0 {
        let rest = escaped(bytes.skip(1));
        let high = bytes[0] as int / 16;
        let low = bytes[0] as int % 16;
        lemma_escaped(bytes.skip(1));
        assert forall|i: int| 0 <= i < text.len() implies 0 <= #[trigger] text[i] as nat && (
        text[i] as nat) < 128 && text[i] != '&' by {
            if i >= 3 {
                assert(text[i] == rest[i - 3]);
            }
        }
        assert(is_ascii_chars(text));
        is_ascii_chars_encode_utf8(text);
        is_ascii_chars_encode_utf8(rest);
        let raw = encode_utf8(text);
        assert forall|i: int| 0 <= i < raw.len() - 3 implies #[trigger] raw.skip(3)[i]
            == encode_utf8(rest)[i] by {
            assert(raw[i + 3] == text[i + 3] as u8);
            assert(encode_utf8(rest)[i] == rest[i] as u8);
        }
        assert(raw.skip(3) =~= encode_utf8(rest));
        assert(raw[0] == text[0] as u8 && raw[1] == text[1] as u8 && raw[2] == text[2] as u8);
        assert(hex_value(raw[1]) == Some(high as u8));
        assert(hex_value(raw[2]) == Some(low as u8));
        assert(hex_pair(raw[1], raw[2]) == Some(bytes[0]));
    } else {
        is_ascii_chars_encode_utf8(text);
        assert(encode_utf8(text) =~= seq![]);
    }
}

/// Every text can be percent-encoded, and without an ampersand.
pub proof fn law_every_text_can_be_encoded(text: Seq<char>)
    ensures
        encodes(encode_utf8(escaped(encode_utf8(text))), encode_utf8(text)),
        forall|i: int|
            0 <= i < escaped(encode_utf8(text)).len() ==> #[trigger] escaped(encode_utf8(text))[i]
                != '&',
        percent_decoded(escaped(encode_utf8(text))) == text,
{
    lemma_escaped(encode_utf8(text));
    law_encoding_is_undone(escaped(encode_utf8(text)), text);
}

/// Bytes without plus and percent signs stand for themselves.
pub proof fn lemma_decoded_plain(raw: Seq<u8>)
    requires
        forall|i: int| 0 <= i < raw.len() ==> #[trigger] raw[i] != 0x2b && raw[i] != 0x25,
    ensures
        decoded(raw) == raw,
    decreases raw.len(),
{
    if raw.len() > 0 {
        let rest = raw.skip(1);
        assert forall|i: int| 0 <= i < rest.len() implies #[trigger] rest[i] != 0x2b && rest[i]
            != 0x25 by {
            assert(rest[i] == raw[i + 1]);
        }
        lemma_decoded_plain(rest);
        assert(seq![raw[0]] + rest =~= raw);
    }
}

/// A text of ASCII characters without plus and percent signs stands for itself.
pub proof fn law_plain_text_decodes_to_itself(raw: Seq<char>)
    requires
        is_ascii_chars(raw),
        forall|i: int| 0 <= i < raw.len() ==> #[trigger] raw[i] != '+' && raw[i] != '%',
    ensures
        percent_decoded(raw) == raw,
{
    is_ascii_chars_encode_utf8(raw);
    let bytes = encode_utf8(raw);
    assert forall|i: int| 0 <= i < bytes.len() implies #[trigger] bytes[i] != 0x2b && bytes[i]
        != 0x25 by {
        assert(bytes[i] == raw[i] as u8);
    }
    lemma_decoded_plain(bytes);
    encode_utf8_valid_utf8(raw);
    encode_utf8_decode_utf8(raw);
}

// ---------------------------------------------------------------------------------------------
// Forms and cookies
// ---------------------------------------------------------------------------------------------

/// The name and the value of a form field, both percent-encoded around the first equals sign.
pub open spec fn form_pair(piece: Seq<char>) -> Option<(Seq<char>, Seq<char>)> {
    match halves(piece, '=') {
        Some((key, value)) => Some((percent_decoded(key), percent_decoded(value))),
        None => None,
    }
}

/// The name and the value of a cookie; the value is percent-encoded.
pub open spec fn cookie_pair(piece: Seq<char>) -> Option<(Seq<char>, Seq<char>)> {
    match halves(trimmed(piece), '=') {
        Some((key, value)) => Some((trimmed(key), percent_decoded(trimmed(value)))),
        None => None,
    }
}

/// The map that some pairs make; of equal names the last one counts.
pub open spec fn pairs_map(pairs: Seq<Option<(Seq<char>, Seq<char>)>>) -> Map<Seq<char>, Seq<char>>
    decreases pairs.len(),
{
    if pairs.len() == 0 {
        Map::empty()
    } else {
        match pairs.last() {
            Some((key, value)) => pairs_map(pairs.drop_last()).insert(key, value),
            None => pairs_map(pairs.drop_last()),
        }
    }
}

/// The fields of a form body.
pub open spec fn form_fields(raw: Seq<char>) -> Map<Seq<char>, Seq<char>> {
    pairs_map(pieces(raw, '&').map_values(|piece: Seq<char>| form_pair(piece)))
}

/// The cookies of a header.
pub open spec fn cookies(raw: Seq<char>) -> Map<Seq<char>, Seq<char>> {
    pairs_map(pieces(raw, ';').map_values(|piece: Seq<char>| cookie_pair(piece)))
}

/// Reads a form body.
pub fn parse_form_body(raw: &str) -> (fields: Table<String>)
    ensures
        fields.wf(),
        fields@ == form_fields(raw@),
{
    let chars = chars_of(raw);
    let parts = split(chars.as_slice(), '&');
    let ghost pairs = pieces(raw@, '&').map_values(|piece: Seq<char>| form_pair(piece));
    let mut fields: Table<String> = Table::new();
    let mut i: usize = 0;
    while i < parts.len()
        invariant
            views(parts@) == pieces(raw@, '&'),
            pairs == pieces(raw@, '&').map_values(|piece: Seq<char>| form_pair(piece)),
            i <= parts@.len(),
            fields.wf(),
            fields@ == pairs_map(pairs.take(i as int)),
        decreases parts@.len() - i,
    {
        assert(views(parts@)[i as int] == parts@[i as int]@);
        assert(pairs.take(i + 1).drop_last() =~= pairs.take(i as int));
        assert(pairs.take(i + 1).last() == form_pair(parts@[i as int]@));
        match split_once(parts[i].as_slice(), '=') {
            Some((key, value)) => {
                let key = percent_decode(text_of(key).as_str());
                let value = percent_decode(text_of(value).as_str());
                fields.insert(key, value);
            },
            None => {},
        }
        i += 1;
    }
    assert(pairs.len() == parts@.len()) by {
        assert(views(parts@).len() == parts@.len());
    }
    assert(pairs.take(i as int) =~= pairs);
    fields
}

/// Reads a cookie header.
pub fn parse_cookie_header(raw: &str) -> (found: Table<String>)
    ensures
        found.wf(),
        found@ == cookies(raw@),
{
    let chars = chars_of(raw);
    let parts = split(chars.as_slice(), ';');
    let ghost pairs = pieces(raw@, ';').map_values(|piece: Seq<char>| cookie_pair(piece));
    let mut found: Table<String> = Table::new();
    let mut i: usize = 0;
    while i < parts.len()
        invariant
            views(parts@) == pieces(raw@, ';'),
            pairs == pieces(raw@, ';').map_values(|piece: Seq<char>| cookie_pair(piece)),
            i <= parts@.len(),
            found.wf(),
            found@ == pairs_map(pairs.take(i as int)),
        decreases parts@.len() - i,
    {
        assert(views(parts@)[i as int] == parts@[i as int]@);
        assert(pairs.take(i + 1).drop_last() =~= pairs.take(i as int));
        assert(pairs.take(i + 1).last() == cookie_pair(parts@[i as int]@));
        match split_once(strip(parts[i].as_slice(), Strip::White), '=') {
            Some((key, value)) => {
                let key = text_of(strip(key, Strip::White));
                let value = percent_decode(text_of(strip(value, Strip::White)).as_str());
                found.insert(key, value);
            },
            None => {},
        }
        i += 1;
    }
    assert(pairs.len() == parts@.len()) by {
        assert(views(parts@).len() == parts@.len());
    }
    assert(pairs.take(i as int) =~= pairs);
    found
}

/// The texts of some headers.
pub open spec fn header_texts(headers: Seq<(String, String)>) -> Seq<(Seq<char>, Seq<char>)> {
    Seq::new(headers.len(), |i: int| (headers[i].0@, headers[i].1@))
}

/// Whether a header holds a session cookie. Its name is compared without regard to case.
pub open spec fn holds_session(header: (Seq<char>, Seq<char>)) -> bool {
    lowered(header.0) == "cookie"@ && cookies(header.1).dom().contains("session"@)
}

/// The session cookie of the first header that holds one.
pub open spec fn session_cookie(headers: Seq<(Seq<char>, Seq<char>)>) -> Option<Seq<char>>
    decreases headers.len(),
{
    if headers.len() == 0 {
        None
    } else if holds_session(headers[0]) {
        Some(cookies(headers[0].1)["session"@])
    } else {
        session_cookie(headers.drop_first())
    }
}

/// Finds the session cookie in the headers of a request, each given by its name and value.
pub fn extract_session_cookie(headers: &Vec<(String, String)>) -> (token: Option<String>)
    ensures
        match token {
            Some(token) => session_cookie(header_texts(headers@)) == Some(token@),
            None => session_cookie(header_texts(headers@)) is None,
        },
{
    let ghost all = header_texts(headers@);
    let mut i: usize = 0;
    assert(all.skip(0) =~= all);
    while i < headers.len()
        invariant
            all == header_texts(headers@),
            i <= headers@.len(),
            session_cookie(all) == session_cookie(all.skip(i as int)),
        decreases headers@.len() - i,
    {
        let ghost rest = all.skip(i as int);
        assert(rest[0] == all[i as int]);
        assert(rest.drop_first() =~= all.skip(i + 1));
        let name = chars_of(headers[i].0.as_str());
        if same_text(lower(name.as_slice()).as_str(), "cookie") {
            let found = parse_cookie_header(headers[i].1.as_str());
            match found.get("session") {
                Some(token) => {
                    return Some(token.clone());
                },
                None => {},
            }
        }
        i += 1;
    }
    None
}

// ---------------------------------------------------------------------------------------------
// Laws
// ---------------------------------------------------------------------------------------------

/// The hexadecimal digits, in either case, and no other bytes, have a value.
pub proof fn law_hex_digits(byte: u8)
    ensures
        0x30 <= byte <= 0x39 ==> hex_value(byte) == Some((byte - 0x30) as u8),
        0x41 <= byte <= 0x46 ==> hex_value(byte) == Some((byte - 0x41 + 10) as u8),
        0x61 <= byte <= 0x66 ==> hex_value(byte) == Some((byte - 0x61 + 10) as u8),
        hex_value(byte) is Some ==> 0x30 <= byte <= 0x39 || 0x41 <= byte <= 0x46 || 0x61 <= byte
            <= 0x66,
{
}

/// Decoding goes on behind what was encoded: the bytes that it stands for come first, and then
/// those of the rest. An escape without two digits loses the bytes in their place and leaves its
/// percent sign, also at the end. In front of one digit a plus sign counts as a zero.
pub proof fn law_decoding_goes_on(
    raw: Seq<u8>,
    bytes: Seq<u8>,
    first: u8,
    second: u8,
    rest: Seq<u8>,
)
    requires
        encodes(raw, bytes),
    ensures
        decoded(raw + rest) == bytes + decoded(rest),
        hex_value(second) is None || (hex_value(first) is None && first != 0x2b) ==> decoded(
            seq![0x25u8, first, second] + rest,
        ) == seq![0x25u8] + decoded(rest),
        hex_value(second) is Some ==> decoded(seq![0x25u8, 0x2bu8, second] + rest) == seq![
            hex_value(second)->0,
        ] + decoded(rest),
        hex_value(first) is Some && hex_value(second) is Some ==> decoded(
            seq![0x25u8, first, second] + rest,
        ) == seq![(16 * hex_value(first)->0 + hex_value(second)->0) as u8] + decoded(rest),
        decoded(seq![0x25u8]) == seq![0x25u8],
        decoded(seq![0x25u8, first]) == seq![0x25u8],
        decoded(Seq::empty()) == Seq::<u8>::empty(),
    decreases bytes.len(),
{
    let broken = seq![0x25u8, first, second] + rest;
    assert(broken[0] == 0x25 && broken[1] == first && broken[2] == second);
    assert(broken.skip(3) =~= rest);
    let signed = seq![0x25u8, 0x2bu8, second] + rest;
    assert(signed[0] == 0x25 && signed[1] == 0x2b && signed[2] == second);
    assert(signed.skip(3) =~= rest);
    let whole = raw + rest;
    if bytes.len() == 0 {
        assert(whole =~= rest);
        assert(bytes + decoded(rest) =~= decoded(rest));
    } else {
        let others = bytes.skip(1);
        assert(whole[0] == raw[0]);
        if raw[0] == 0x25 {
            assert(whole[1] == raw[1] && whole[2] == raw[2]);
            assert(whole.skip(3) =~= raw.skip(3) + rest);
            law_decoding_goes_on(raw.skip(3), others, first, second, rest);
        } else {
            assert(whole.skip(1) =~= raw.skip(1) + rest);
            law_decoding_goes_on(raw.skip(1), others, first, second, rest);
        }
        assert(decoded(whole) =~= bytes + decoded(rest));
    }
}

/// Of pairs with the same name the last one counts, pairs with other names stay, and what is no
/// pair changes nothing.
pub proof fn law_the_last_pair_counts(
    pairs: Seq<Option<(Seq<char>, Seq<char>)>>,
    key: Seq<char>,
    value: Seq<char>,
    other: Seq<char>,
)
    ensures
        ({
            let after = pairs_map(pairs.push(Some((key, value))));
            &&& after.dom().contains(key) && after[key] == value
            &&& other != key ==> (after.dom().contains(other) <==> pairs_map(pairs).dom().contains(
                other,
            ))
            &&& other != key && pairs_map(pairs).dom().contains(other) ==> after[other]
                == pairs_map(pairs)[other]
            &&& pairs_map(pairs.push(None)) == pairs_map(pairs)
            &&& !pairs_map(Seq::empty()).dom().contains(key)
        }),
{
    assert(pairs.push(Some((key, value))).drop_last() =~= pairs);
    assert(pairs.push(None).drop_last() =~= pairs);
}

/// A form field has its name before the first equals sign and its value behind it, both decoded; a
/// field without one is none. The last field of a body counts whatever stands before it.
pub proof fn law_form_fields(
    before: Seq<char>,
    name: Seq<char>,
    value: Seq<char>,
)
    requires
        !name.contains('='),
        !name.contains('&'),
        !value.contains('&'),
    ensures
        form_pair(name) is None,
        form_pair(name.push('=') + value) == Some((percent_decoded(name), percent_decoded(value))),
        ({
            let fields = form_fields(before.push('&') + (name.push('=') + value));
            &&& fields.dom().contains(percent_decoded(name))
            &&& fields[percent_decoded(name)] == percent_decoded(value)
        }),
        form_fields(before.push('&') + name) == form_fields(before),
{
    let piece = name.push('=') + value;
    lemma_halves(name, '=', value);
    lemma_one_piece(name, '&');
    assert(!piece.contains('&')) by {
        if piece.contains('&') {
            let i = piece.index_of('&');
            if i < name.len() {
                assert(name[i] == '&');
                assert(name.contains('&'));
            } else if i > name.len() {
                assert(value[i - name.len() - 1] == '&');
                assert(value.contains('&'));
            }
        }
    }
    lemma_one_piece(piece, '&');
    law_pieces_of_two(before, piece, '&');
    law_pieces_of_two(before, name, '&');
    let read = |piece: Seq<char>| form_pair(piece);
    let pairs = pieces(before, '&').map_values(read);
    assert((pieces(before, '&') + seq![piece]).map_values(read) =~= pairs.push(form_pair(piece)));
    assert((pieces(before, '&') + seq![name]).map_values(read) =~= pairs.push(form_pair(name)));
    law_the_last_pair_counts(pairs, percent_decoded(name), percent_decoded(value), name);
}

proof fn lemma_halves(name: Seq<char>, sep: char, value: Seq<char>)
    requires
        !name.contains(sep),
    ensures
        halves(name.push(sep) + value, sep) == Some((name, value)),
        halves(name, sep) is None,
{
    let s = name.push(sep) + value;
    assert forall|j: int| 0 <= j < name.len() implies s[j] != sep && name[j] != sep by {
        assert(s[j] == name[j]);
        assert(name.contains(name[j]));
    }
    assert(s[name.len() as int] == sep);
    lemma_position(s, sep, name.len() as int);
    lemma_position(name, sep, name.len() as int);
    assert(s.take(name.len() as int) =~= name);
    assert(s.skip(name.len() as int + 1) =~= value);
}

proof fn lemma_one_piece(s: Seq<char>, sep: char)
    requires
        !s.contains(sep),
    ensures
        pieces(s, sep) == seq![s],
{
    assert forall|j: int| 0 <= j < s.len() implies s[j] != sep by {
        assert(s.contains(s[j]));
    }
    lemma_position(s, sep, s.len() as int);
}

/// A cookie has its name before the first equals sign and its value behind it, which is decoded;
/// white space around them does not count. The last cookie of a header counts whatever stands
/// before it.
pub proof fn law_cookies(before: Seq<char>, pad: Seq<char>, name: Seq<char>, value: Seq<char>)
    requires
        !name.contains('='),
        !name.contains(';'),
        !value.contains(';'),
        forall|i: int| 0 <= i < pad.len() ==> is_white(#[trigger] pad[i]),
        name.len() > 0 && !is_white(name[0]) && !is_white(name.last()),
        value.len() > 0 && !is_white(value[0]) && !is_white(value.last()),
    ensures
        cookie_pair(pad + (name.push('=') + value)) == Some((name, percent_decoded(value))),
        cookie_pair(pad + name) is None,
        ({
            let found = cookies(before.push(';') + (pad + (name.push('=') + value)));
            found.dom().contains(name) && found[name] == percent_decoded(value)
        }),
{
    let piece = name.push('=') + value;
    let padded = pad + piece;
    assert(piece[0] == name[0] && piece.last() == value.last());
    law_padding_is_trimmed(pad, piece, Seq::empty());
    assert(pad + piece + Seq::empty() =~= padded);
    law_padding_is_trimmed(pad, name, Seq::empty());
    assert(pad + name + Seq::empty() =~= pad + name);
    law_padding_is_trimmed(Seq::empty(), name, Seq::empty());
    assert(Seq::empty() + name + Seq::empty() =~= name);
    law_padding_is_trimmed(Seq::empty(), value, Seq::empty());
    assert(Seq::empty() + value + Seq::empty() =~= value);
    lemma_halves(name, '=', value);
    assert(!padded.contains(';')) by {
        if padded.contains(';') {
            let i = padded.index_of(';');
            if i < pad.len() {
                assert(padded[i] == pad[i]);
            } else if i < pad.len() + name.len() {
                assert(padded[i] == name[i - pad.len()]);
                assert(name.contains(';'));
            } else if i > pad.len() + name.len() {
                assert(padded[i] == value[i - pad.len() - name.len() - 1]);
                assert(value.contains(';'));
            } else {
                assert(padded[i] == '=');
            }
        }
    }
    lemma_one_piece(padded, ';');
    law_pieces_of_two(before, padded, ';');
    let read = |piece: Seq<char>| cookie_pair(piece);
    let pairs = pieces(before, ';').map_values(read);
    assert((pieces(before, ';') + seq![padded]).map_values(read) =~= pairs.push(
        cookie_pair(padded),
    ));
    law_the_last_pair_counts(pairs, name, percent_decoded(value), name);
}

/// The session is that of the first cookie header that has one, in whatever case the name of the
/// header is written; other headers do not count.
pub proof fn law_first_session_counts(
    name: Seq<char>,
    raw: Seq<char>,
    rest: Seq<(Seq<char>, Seq<char>)>,
)
    ensures
        lowered(name) == "cookie"@ && cookies(raw).dom().contains("session"@) ==> session_cookie(
            seq![(name, raw)] + rest,
        ) == Some(cookies(raw)["session"@]),
        lowered(name) != "cookie"@ || !cookies(raw).dom().contains("session"@) ==> session_cookie(
            seq![(name, raw)] + rest,
        ) == session_cookie(rest),
        session_cookie(Seq::empty()) is None,
{
    let headers = seq![(name, raw)] + rest;
    assert(headers[0] == (name, raw));
    assert(headers.drop_first() =~= rest);
}

/// The texts of some headers are theirs, one by one.
pub proof fn law_header_texts(headers: Seq<(String, String)>, i: int)
    requires
        0 <= i < headers.len(),
    ensures
        header_texts(headers).len() == headers.len(),
        header_texts(headers)[i] == (headers[i].0@, headers[i].1@),
{
}

/// Decoded bytes that are UTF-8 are the text that they encode, and others are read as far as they
/// can be.
pub proof fn law_decoded_bytes_are_text(raw: Seq<char>)
    ensures
        ({
            let bytes = decoded(encode_utf8(raw));
            &&& valid_utf8(bytes) ==> percent_decoded(raw) == decode_utf8(bytes)
            &&& !valid_utf8(bytes) ==> percent_decoded(raw) == lossy_text(bytes)
        }),
{
}

} // verus!
