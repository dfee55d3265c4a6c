//! The `key=value` control data of graphics commands and replies.
//!
//! Control data is a list of fields separated by commas. A field is a key, an
//! equals sign and a value; the first equals sign of a field ends its key.

use vstd::prelude::*;

use crate::bytes::{digits_only, find_byte, writes_number};
use crate::bytes::{all_digits, index_of, lemma_index_of, number, split};

verus! {

/// `,` separates fields.
pub const COMMA: u8 = 0x2c;

/// `=` separates a key from its value.
pub const EQUALS: u8 = 0x3d;

/// `i`: the number of the image.
pub const IMAGE: u8 = 0x69;

/// `I`: the number that the client chose for the image.
pub const IMAGE_NUMBER: u8 = 0x49;

/// `p`: the number of the placement.
pub const PLACEMENT: u8 = 0x70;

/// `a`: what the command does.
pub const ACTION: u8 = 0x61;

/// `f`: the pixel format.
pub const FORMAT: u8 = 0x66;

/// `q`: which replies are suppressed.
pub const QUIET: u8 = 0x71;

/// `C`: whether the cursor stays where it is.
pub const CURSOR: u8 = 0x43;

/// `T`: the action that transmits an image and displays it.
pub const TRANSMIT_AND_DISPLAY: u8 = 0x54;

/// `;` ends the control data of a command or reply.
pub const SEMICOLON: u8 = 0x3b;

/// The escape byte, which starts and ends a command or reply.
pub const ESCAPE: u8 = 0x1b;

/// `-` may stand before a whole number.
pub const MINUS: u8 = 0x2d;

/// Most bytes that the control data of an outgoing command may have.
pub const MAX_CONTROL_BYTES: usize = 1024;

/// The fields of control data.
pub open spec fn fields(control: Seq<u8>) -> Seq<Seq<u8>> {
    split(control, COMMA)
}

/// A field has a key and a value.
pub open spec fn is_assignment(field: Seq<u8>) -> bool {
    index_of(field, EQUALS) < field.len()
}

/// What stands before the first equals sign of a field.
pub open spec fn key_of(field: Seq<u8>) -> Seq<u8> {
    field.take(index_of(field, EQUALS) as int)
}

/// What stands behind the first equals sign of a field.
pub open spec fn value_of(field: Seq<u8>) -> Seq<u8> {
    field.skip(index_of(field, EQUALS) as int + 1)
}

/// How many fields have the one-byte key `key`.
pub open spec fn key_count(fields: Seq<Seq<u8>>, key: u8) -> nat
    decreases fields.len(),
{
    if fields.len() == 0 {
        0
    } else {
        key_count(fields.drop_last(), key) + if key_of(fields.last()) == seq![key] {
            1nat
        } else {
            0nat
        }
    }
}

/// A field that a reply about image `image` may have: the image's number, or
/// the number of another kind that the terminal repeats.
pub open spec fn is_reply_field(field: Seq<u8>, image: u32) -> bool {
    &&& is_assignment(field)
    &&& number(value_of(field)) is Some
    &&& {
        ||| key_of(field) == seq![IMAGE] && number(value_of(field)) == Some(image as nat)
        ||| key_of(field) == seq![IMAGE_NUMBER]
        ||| key_of(field) == seq![PLACEMENT]
    }
}

/// The control data of a reply about image `image`: nothing but fields that
/// such a reply may have, and the image named exactly once.
pub open spec fn reply_names(control: Seq<u8>, image: u32) -> bool {
    &&& forall|k: int|
        0 <= k < fields(control).len() ==> is_reply_field(#[trigger] fields(control)[k], image)
    &&& key_count(fields(control), IMAGE) == 1
}

proof fn lemma_key_count_prefix(fields: Seq<Seq<u8>>, key: u8, n: int)
    requires
        0 <= n <= fields.len(),
    ensures
        key_count(fields.take(n), key) <= key_count(fields, key),
    decreases fields.len(),
{
    if n < fields.len() {
        lemma_key_count_prefix(fields.drop_last(), key, n);
        assert(fields.drop_last().take(n) =~= fields.take(n));
    } else {
        assert(fields.take(n) =~= fields);
    }
}

/// The field that starts a control string, and what is left behind its comma.
proof fn lemma_first_field(control: Seq<u8>, start: int, done: Seq<Seq<u8>>)
    requires
        0 <= start <= control.len(),
        fields(control) == done + fields(control.skip(start)),
    ensures
        ({
            let end = start + index_of(control.skip(start), COMMA);
            let field = control.subrange(start, end);
            &&& end <= control.len()
            &&& fields(control).len() > done.len()
            &&& fields(control)[done.len() as int] == field
            &&& fields(control).take(done.len() as int + 1) == done.push(field)
            &&& end == control.len() ==> fields(control) == done.push(field)
            &&& end < control.len() ==> fields(control) == done.push(field) + fields(
                control.skip(end + 1),
            )
        }),
{
    let rest = control.skip(start);
    let i = index_of(rest, COMMA) as int;
    lemma_index_of(rest, COMMA);
    assert(rest.take(i) =~= control.subrange(start, start + i));
    if i < rest.len() {
        assert(rest.skip(i + 1) =~= control.skip(start + i + 1));
        assert(fields(control) =~= done.push(rest.take(i)) + fields(rest.skip(i + 1)));
    } else {
        assert(rest.take(i) =~= rest);
        assert(fields(control) =~= done.push(rest));
    }
    assert(fields(control).take(done.len() as int + 1) =~= done.push(rest.take(i)));
}

/// Whether `bytes` are the control data of a reply about image `expected`.
pub fn matching_response_controls(bytes: &[u8], expected: u32) -> (matching: bool)
    ensures
        matching == reply_names(bytes@, expected),
{
    let mut matched: bool = false;
    let mut start: usize = 0;
    let ghost mut done: Seq<Seq<u8>> = Seq::empty();
    assert(bytes@.skip(0) =~= bytes@);
    assert(done + fields(bytes@) =~= fields(bytes@));
    loop
        invariant
            start <= bytes@.len(),
            fields(bytes@) == done + fields(bytes@.skip(start as int)),
            forall|k: int| 0 <= k < done.len() ==> is_reply_field(#[trigger] done[k], expected),
            key_count(done, IMAGE) == if matched {
                1nat
            } else {
                0nat
            },
        decreases bytes@.len() - start,
    {
        proof {
            lemma_first_field(bytes@, start as int, done);
            lemma_index_of(bytes@.skip(start as int), COMMA);
        }
        let rest: &[u8] = &bytes[start..bytes.len()];
        assert(rest@ =~= bytes@.skip(start as int));
        let end: usize = start + find_byte(rest, COMMA);
        let field: &[u8] = &bytes[start..end];
        let separator: usize = find_byte(field, EQUALS);
        if separator == field.len() {
            assert(!is_reply_field(fields(bytes@)[done.len() as int], expected));
            return false;
        }
        let key: &[u8] = &field[0..separator];
        let value: &[u8] = &field[separator + 1..field.len()];
        assert(key@ =~= key_of(field@));
        assert(value@ =~= value_of(field@));
        if value.len() == 0 || !digits_only(value) {
            assert(!is_reply_field(fields(bytes@)[done.len() as int], expected));
            return false;
        }
        let ghost before = done;
        proof {
            done = done.push(field@);
            assert(done.drop_last() =~= before);
        }
        if key.len() == 1 && key[0] == IMAGE {
            assert(key@ =~= seq![IMAGE]);
            if matched {
                proof {
                    lemma_key_count_prefix(fields(bytes@), IMAGE, done.len() as int);
                }
                return false;
            }
            if !writes_number(value, expected) {
                assert(!is_reply_field(fields(bytes@)[before.len() as int], expected));
                return false;
            }
            matched = true;
        } else if key.len() == 1 && (key[0] == IMAGE_NUMBER || key[0] == PLACEMENT) {
            assert(key@ =~= seq![key@[0]]);
        } else {
            assert(!is_reply_field(fields(bytes@)[before.len() as int], expected)) by {
                if key@.len() == 1 {
                    assert(key@ =~= seq![key@[0]]);
                }
            }
            return false;
        }
        if end == bytes.len() {
            return matched;
        }
        start = end + 1;
    }
}

/// The keys that an outgoing command may use: `a`, `f`, `i`, `p`, `q` and `C`,
/// sizes in pixels and cells (`s`, `v`, `c`, `r`), the height in the stack
/// (`z`), the part of the image that is shown (`x`, `y`, `w`, `h`) and the
/// offset within a cell (`X`, `Y`).
pub open spec fn is_command_key(key: u8) -> bool {
    ||| key == ACTION
    ||| key == FORMAT
    ||| key == IMAGE
    ||| key == PLACEMENT
    ||| key == QUIET
    ||| key == CURSOR
    ||| key == 0x73 || key == 0x76 || key == 0x63 || key == 0x72
    ||| key == 0x7a
    ||| key == 0x78 || key == 0x79 || key == 0x77 || key == 0x68
    ||| key == 0x58 || key == 0x59
}

/// `value` is digits, possibly behind one minus sign. The sign alone counts too.
pub open spec fn is_signed_digits(value: Seq<u8>) -> bool {
    &&& value.len() > 0
    &&& all_digits(
        if value[0] == MINUS {
            value.skip(1)
        } else {
            value
        },
    )
}

/// A field that an outgoing command may have.
pub open spec fn is_command_field(field: Seq<u8>) -> bool {
    &&& is_assignment(field)
    &&& key_of(field).len() == 1
    &&& is_command_key(key_of(field)[0])
    &&& key_of(field)[0] == ACTION || is_signed_digits(value_of(field))
}

/// The value of the last field with the one-byte key `key`.
pub open spec fn setting(fields: Seq<Seq<u8>>, key: u8) -> Option<Seq<u8>>
    decreases fields.len(),
{
    if fields.len() == 0 {
        None
    } else if key_of(fields.last()) == seq![key] {
        Some(value_of(fields.last()))
    } else {
        setting(fields.drop_last(), key)
    }
}

/// `value` is the number `image` in decimal.
pub open spec fn is_image(value: Option<Seq<u8>>, image: u32) -> bool {
    value matches Some(v) && number(v) == Some(image as nat)
}

/// Control data that transmits and displays image `image` as RGBA pixels, asks
/// for a reply and leaves the cursor alone: short, unable to end the command it
/// stands in, and made of fields that such a command may have. Of several
/// fields with one key the last counts.
pub open spec fn is_valid_control(control: Seq<u8>, image: u32) -> bool {
    &&& control.len() <= MAX_CONTROL_BYTES
    &&& !control.contains(SEMICOLON)
    &&& !control.contains(ESCAPE)
    &&& forall|k: int|
        0 <= k < fields(control).len() ==> is_command_field(#[trigger] fields(control)[k])
    &&& setting(fields(control), ACTION) == Some(seq![TRANSMIT_AND_DISPLAY])
    &&& setting(fields(control), FORMAT) == Some(seq![0x33u8, 0x32u8])
    &&& is_image(setting(fields(control), IMAGE), image)
    &&& setting(fields(control), QUIET) == Some(seq![0x30u8])
    &&& setting(fields(control), CURSOR) == Some(seq![0x31u8])
}

/// Whether an outgoing command may use the key.
fn command_key(key: u8) -> (known: bool)
    ensures
        known == is_command_key(key),
{
    key == ACTION || key == FORMAT || key == IMAGE || key == PLACEMENT || key == QUIET || key
        == CURSOR || key == 0x73 || key == 0x76 || key == 0x63 || key == 0x72 || key == 0x7a || key
        == 0x78 || key == 0x79 || key == 0x77 || key == 0x68 || key == 0x58 || key == 0x59
}

/// Whether `value` is digits, possibly behind one minus sign.
fn signed_digits(value: &[u8]) -> (numeric: bool)
    ensures
        numeric == is_signed_digits(value@),
{
    if value.len() == 0 {
        return false;
    }
    if value[0] == MINUS {
        let unsigned: &[u8] = &value[1..value.len()];
        assert(unsigned@ =~= value@.skip(1));
        digits_only(unsigned)
    } else {
        digits_only(value)
    }
}

/// The key and the value of a field that an outgoing command may have.
fn command_field(field: &[u8]) -> (parts: Option<(u8, &[u8])>)
    ensures
        parts is Some == is_command_field(field@),
        parts matches Some(part) ==> {
            &&& key_of(field@) == seq![part.0]
            &&& value_of(field@) == part.1@
        },
{
    let separator: usize = find_byte(field, EQUALS);
    if separator != 1 || separator == field.len() {
        return None;
    }
    let key: u8 = field[0];
    let value: &[u8] = &field[separator + 1..field.len()];
    assert(key_of(field@) =~= seq![key]);
    assert(value@ =~= value_of(field@));
    if !command_key(key) || (key != ACTION && !signed_digits(value)) {
        return None;
    }
    Some((key, value))
}

/// Whether the only byte of `value` is `byte`.
fn is_byte(value: &[u8], byte: u8) -> (same: bool)
    ensures
        same == (value@ == seq![byte]),
{
    let same: bool = value.len() == 1 && value[0] == byte;
    assert(same ==> value@ =~= seq![byte]);
    same
}

/// Whether `value` is `32`, the format of RGBA pixels.
fn is_rgba(value: &[u8]) -> (same: bool)
    ensures
        same == (value@ == seq![0x33u8, 0x32u8]),
{
    let same: bool = value.len() == 2 && value[0] == 0x33 && value[1] == 0x32;
    assert(same ==> value@ =~= seq![0x33u8, 0x32u8]);
    same
}

/// Whether `control` transmits and displays image `image_id` as RGBA pixels,
/// asks for a reply, leaves the cursor alone and does nothing else.
pub fn valid_control(control: &str, image_id: u32) -> (valid: bool)
    ensures
        valid == is_valid_control(vstd::utf8::encode_utf8(control@), image_id),
{
    let bytes: &[u8] = control.as_bytes();
    if bytes.len() > MAX_CONTROL_BYTES {
        return false;
    }
    let semicolon: usize = find_byte(bytes, SEMICOLON);
    let escape: usize = find_byte(bytes, ESCAPE);
    proof {
        lemma_index_of(bytes@, SEMICOLON);
        lemma_index_of(bytes@, ESCAPE);
    }
    if semicolon < bytes.len() || escape < bytes.len() {
        assert(semicolon < bytes@.len() ==> bytes@.contains(bytes@[semicolon as int]));
        assert(escape < bytes@.len() ==> bytes@.contains(bytes@[escape as int]));
        return false;
    }
    let mut action: bool = false;
    let mut format: bool = false;
    let mut image: bool = false;
    let mut quiet: bool = false;
    let mut cursor: bool = false;
    let mut start: usize = 0;
    let ghost mut done: Seq<Seq<u8>> = Seq::empty();
    assert(bytes@.skip(0) =~= bytes@);
    assert(done + fields(bytes@) =~= fields(bytes@));
    loop
        invariant
            start <= bytes@.len() <= MAX_CONTROL_BYTES,
            bytes@ == vstd::utf8::encode_utf8(control@),
            !bytes@.contains(SEMICOLON),
            !bytes@.contains(ESCAPE),
            fields(bytes@) == done + fields(bytes@.skip(start as int)),
            forall|k: int| 0 <= k < done.len() ==> is_command_field(#[trigger] done[k]),
            action == (setting(done, ACTION) == Some(seq![TRANSMIT_AND_DISPLAY])),
            format == (setting(done, FORMAT) == Some(seq![0x33u8, 0x32u8])),
            image == is_image(setting(done, IMAGE), image_id),
            quiet == (setting(done, QUIET) == Some(seq![0x30u8])),
            cursor == (setting(done, CURSOR) == Some(seq![0x31u8])),
        decreases bytes@.len() - start,
    {
        proof {
            lemma_first_field(bytes@, start as int, done);
            lemma_index_of(bytes@.skip(start as int), COMMA);
        }
        let rest: &[u8] = &bytes[start..bytes.len()];
        assert(rest@ =~= bytes@.skip(start as int));
        let end: usize = start + find_byte(rest, COMMA);
        let field: &[u8] = &bytes[start..end];
        let (key, value): (u8, &[u8]) = match command_field(field) {
            Some(parts) => parts,
            None => {
                assert(!is_command_field(fields(bytes@)[done.len() as int]));
                return false;
            },
        };
        if key == ACTION {
            action = is_byte(value, TRANSMIT_AND_DISPLAY);
        } else if key == FORMAT {
            format = is_rgba(value);
        } else if key == IMAGE {
            image = writes_number(value, image_id);
        } else if key == QUIET {
            quiet = is_byte(value, 0x30);
        } else if key == CURSOR {
            cursor = is_byte(value, 0x31);
        }
        proof {
            assert(done.push(field@).drop_last() =~= done);
            assert(key_of(field@)[0] == key);
            done = done.push(field@);
        }
        if end == bytes.len() {
            return action && format && image && quiet && cursor;
        }
        start = end + 1;
    }
}

} // verus!
