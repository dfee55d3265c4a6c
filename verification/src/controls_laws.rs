//! What holds of control data in general.

use vstd::prelude::*;

use crate::bytes::{all_digits, decimal, is_digit, number};
use crate::bytes::{index_of, lemma_index_of, lemma_index_of_unique};
use crate::controls::{is_image, is_signed_digits};
use crate::controls::{fields, is_reply_field, key_count, key_of, reply_names, setting, value_of};
use crate::controls::{is_assignment, is_command_field, is_valid_control};
use crate::controls::{ACTION, COMMA, CURSOR, EQUALS, ESCAPE, FORMAT, IMAGE, QUIET, SEMICOLON};
use crate::controls::TRANSMIT_AND_DISPLAY;

verus! {

/// A key that is counted stands in some field.
proof fn lemma_counted_key(fields: Seq<Seq<u8>>, key: u8) -> (k: int)
    requires
        key_count(fields, key) > 0,
    ensures
        0 <= k < fields.len(),
        key_of(fields[k]) == seq![key],
    decreases fields.len(),
{
    if key_of(fields.last()) == seq![key] {
        fields.len() - 1
    } else {
        lemma_counted_key(fields.drop_last(), key)
    }
}

/// A reply is about one image.
pub proof fn law_reply_names_one_image(control: Seq<u8>, image: u32, other: u32)
    requires
        reply_names(control, image),
        reply_names(control, other),
    ensures
        image == other,
{
    let k = lemma_counted_key(fields(control), IMAGE);
    assert(is_reply_field(fields(control)[k], image));
    assert(is_reply_field(fields(control)[k], other));
    assert(seq![IMAGE][0] == IMAGE);
    assert(key_of(fields(control)[k])[0] == IMAGE);
}

/// Valid control data is about one image.
pub proof fn law_valid_control_owns_one_image(control: Seq<u8>, image: u32, other: u32)
    requires
        is_valid_control(control, image),
        is_valid_control(control, other),
    ensures
        image == other,
{
}

/// Valid control data cannot end the command it stands in, nor start another.
pub proof fn law_valid_control_stays_inside_its_command(control: Seq<u8>, image: u32, i: int)
    requires
        is_valid_control(control, image),
        0 <= i < control.len(),
    ensures
        control[i] != ESCAPE,
        control[i] != SEMICOLON,
{
    assert(control.contains(control[i]));
}

/// Valid control data says nothing of how the pixels reach the terminal: it
/// has no field with the key `t`.
pub proof fn law_valid_control_names_no_medium(control: Seq<u8>, image: u32, k: int)
    requires
        is_valid_control(control, image),
        0 <= k < fields(control).len(),
    ensures
        key_of(fields(control)[k]) != seq![0x74u8],
{
    assert(is_command_field(fields(control)[k]));
    assert(seq![0x74u8][0] == 0x74u8);
}

/// A field with a one-byte key.
pub open spec fn assignment(key: u8, value: Seq<u8>) -> Seq<u8> {
    seq![key, 0x3du8] + value
}

/// Fields as control data.
pub open spec fn joined(fields: Seq<Seq<u8>>) -> Seq<u8>
    decreases fields.len(),
{
    if fields.len() == 0 {
        seq![]
    } else if fields.len() == 1 {
        fields[0]
    } else {
        fields[0] + seq![0x2cu8] + joined(fields.drop_first())
    }
}

/// The decimal digits of `n`.
pub open spec fn digits(n: nat) -> Seq<u8>
    decreases n,
{
    if n < 10 {
        seq![(0x30 + n) as u8]
    } else {
        digits(n / 10).push((0x30 + n % 10) as u8)
    }
}

/// Fields that hold no comma are found again in the control data they make up.
pub proof fn law_fields_are_found_again(list: Seq<Seq<u8>>)
    requires
        list.len() > 0,
        forall|k: int| 0 <= k < list.len() ==> !(#[trigger] list[k]).contains(COMMA),
    ensures
        fields(joined(list)) == list,
    decreases list.len(),
{
    let first = list[0];
    let control = joined(list);
    assert forall|j: int| 0 <= j < first.len() implies first[j] != COMMA by {
        assert(first.contains(first[j]));
    }
    if list.len() == 1 {
        lemma_index_of_unique(control, COMMA, first.len() as int);
        assert(fields(control) =~= list);
    } else {
        let rest = list.drop_first();
        assert forall|k: int| 0 <= k < rest.len() implies !(#[trigger] rest[k]).contains(
            COMMA,
        ) by {
            assert(rest[k] == list[k + 1]);
        }
        law_fields_are_found_again(rest);
        lemma_index_of_unique(control, COMMA, first.len() as int);
        assert(control.take(first.len() as int) =~= first);
        assert(control.skip(first.len() as int + 1) =~= joined(rest));
        assert(fields(control) =~= list);
    }
}

/// A number is read back from its digits.
pub proof fn law_number_is_read_back(n: nat)
    ensures
        number(digits(n)) == Some(n),
    decreases n,
{
    if n < 10 {
        let s = digits(n);
        assert(s.drop_last() =~= Seq::<u8>::empty());
        assert(decimal(s.drop_last()) == 0);
    } else {
        law_number_is_read_back(n / 10);
        let s = digits(n);
        let head = digits(n / 10);
        assert(s.drop_last() =~= head);
        assert forall|i: int| 0 <= i < s.len() implies is_digit(#[trigger] s[i]) by {
            if i < head.len() {
                assert(s[i] == head[i]);
                assert(is_digit(head[i]));
            }
        }
    }
}

/// A 32-bit number has at most ten digits.
proof fn lemma_digits_len(n: nat, len: nat)
    requires
        len >= 1,
        n < vstd::arithmetic::power::pow(10, len),
    ensures
        1 <= digits(n).len() <= len,
    decreases len,
{
    vstd::arithmetic::power::lemma_pow1(10);
    if n >= 10 {
        if len == 1 {
            assert(false);
        }
        assert(vstd::arithmetic::power::pow(10, len) == 10 * vstd::arithmetic::power::pow(
            10,
            (len - 1) as nat,
        )) by {
            reveal(vstd::arithmetic::power::pow);
        }
        lemma_digits_len(n / 10, (len - 1) as nat);
    }
}

proof fn lemma_u32_digits_len(n: u32)
    ensures
        1 <= digits(n as nat).len() <= 10,
{
    assert(vstd::arithmetic::power::pow(10, 10) == 10_000_000_000) by {
        reveal(vstd::arithmetic::power::pow);
        reveal_with_fuel(vstd::arithmetic::power::pow, 11);
    }
    lemma_digits_len(n as nat, 10);
}

/// The key and the value of a field are found again.
proof fn lemma_assignment(key: u8, value: Seq<u8>)
    requires
        key != EQUALS,
    ensures
        is_assignment(assignment(key, value)),
        key_of(assignment(key, value)) == seq![key],
        value_of(assignment(key, value)) == value,
{
    let field = assignment(key, value);
    lemma_index_of_unique(field, EQUALS, 1);
    assert(key_of(field) =~= seq![key]);
    assert(value_of(field) =~= value);
}

/// Digits hold no byte but digits.
proof fn lemma_digits_hold_digits(n: nat, byte: u8)
    requires
        !is_digit(byte),
    ensures
        !digits(n).contains(byte),
{
    law_number_is_read_back(n);
    assert(all_digits(digits(n)));
}

/// The shortest control data of a reply about image `image`: `i=<image>`.
pub open spec fn plain_reply_control(image: u32) -> Seq<u8> {
    assignment(0x69, digits(image as nat))
}

/// The shortest control data of a reply names its image.
pub proof fn law_plain_reply_names_its_image(image: u32)
    ensures
        reply_names(plain_reply_control(image), image),
        !plain_reply_control(image).contains(SEMICOLON),
        !plain_reply_control(image).contains(ESCAPE),
        plain_reply_control(image).len() <= 12,
{
    let control = plain_reply_control(image);
    lemma_digits_hold_digits(image as nat, COMMA);
    lemma_digits_hold_digits(image as nat, SEMICOLON);
    lemma_digits_hold_digits(image as nat, ESCAPE);
    lemma_u32_digits_len(image);
    law_number_is_read_back(image as nat);
    lemma_assignment(IMAGE, digits(image as nat));
    assert forall|byte: u8|
        byte == COMMA || byte == SEMICOLON || byte == ESCAPE implies !control.contains(byte) by {
        if control.contains(byte) {
            let i = choose|i: int| 0 <= i < control.len() && control[i] == byte;
            assert(digits(image as nat).contains(control[i])) by {
                assert(control[i] == digits(image as nat)[i - 2]);
            }
        }
    }
    law_fields_are_found_again(seq![control]);
    assert(joined(seq![control]) == control);
    assert(fields(control) == seq![control]);
    reveal_with_fuel(key_count, 2);
}

/// The shortest valid control data for image `image`: `a=T,f=32,i=<image>,q=0,C=1`.
pub open spec fn plain_command_fields(image: u32) -> Seq<Seq<u8>> {
    seq![
        assignment(0x61, seq![0x54u8]),
        assignment(0x66, seq![0x33u8, 0x32u8]),
        assignment(0x69, digits(image as nat)),
        assignment(0x71, seq![0x30u8]),
        assignment(0x43, seq![0x31u8]),
    ]
}

/// Every image has valid control data.
pub proof fn law_plain_command_is_valid(image: u32)
    ensures
        is_valid_control(joined(plain_command_fields(image)), image),
        joined(plain_command_fields(image)).len() <= 29,
{
    let list = plain_command_fields(image);
    let control = joined(list);
    let number_digits = digits(image as nat);
    lemma_u32_digits_len(image);
    law_number_is_read_back(image as nat);
    lemma_assignment(ACTION, seq![TRANSMIT_AND_DISPLAY]);
    lemma_assignment(FORMAT, seq![0x33u8, 0x32u8]);
    lemma_assignment(IMAGE, number_digits);
    lemma_assignment(QUIET, seq![0x30u8]);
    lemma_assignment(CURSOR, seq![0x31u8]);
    lemma_digits_hold_digits(image as nat, COMMA);
    lemma_digits_hold_digits(image as nat, SEMICOLON);
    lemma_digits_hold_digits(image as nat, ESCAPE);
    assert(list[2].skip(2) =~= number_digits);
    assert forall|k: int, byte: u8|
        0 <= k < list.len() && (byte == COMMA || byte == SEMICOLON || byte == ESCAPE) implies !(
    #[trigger] list[k].contains(byte)) by {
        if list[k].contains(byte) {
            let i = choose|i: int| 0 <= i < list[k].len() && list[k][i] == byte;
            assert(k == 2 && i >= 2);
            assert(number_digits[i - 2] == byte);
            assert(number_digits.contains(byte));
        }
    }
    law_fields_are_found_again(list);
    lemma_joined_bytes(list, SEMICOLON);
    lemma_joined_bytes(list, ESCAPE);
    assert(control.len() <= 29) by {
        reveal_with_fuel(joined, 6);
        let l1 = list.drop_first();
        let l2 = l1.drop_first();
        let l3 = l2.drop_first();
        let l4 = l3.drop_first();
        assert(l1.len() == 4 && l1[0] == list[1]);
        assert(l2.len() == 3 && l2[0] == list[2]);
        assert(l3.len() == 2 && l3[0] == list[3]);
        assert(l4.len() == 1 && l4[0] == list[4]);
    }
    assert(seq![ACTION][0] == ACTION && seq![FORMAT][0] == FORMAT && seq![IMAGE][0] == IMAGE
        && seq![QUIET][0] == QUIET && seq![CURSOR][0] == CURSOR);
    let f4 = list.drop_last();
    let f3 = f4.drop_last();
    let f2 = f3.drop_last();
    let f1 = f2.drop_last();
    assert(f4.len() == 4 && f4.last() == list[3]);
    assert(f3.len() == 3 && f3.last() == list[2]);
    assert(f2.len() == 2 && f2.last() == list[1]);
    assert(f1.len() == 1 && f1.last() == list[0]);
    assert(setting(f1, ACTION) == Some(seq![TRANSMIT_AND_DISPLAY]));
    assert(setting(f2, FORMAT) == Some(seq![0x33u8, 0x32u8]));
    assert(setting(f3, IMAGE) == Some(number_digits));
    assert(setting(f4, QUIET) == Some(seq![0x30u8]));
    assert(setting(list, CURSOR) == Some(seq![0x31u8]));
    assert(setting(list, ACTION) == setting(f1, ACTION)) by {
        reveal_with_fuel(setting, 6);
    }
    assert(setting(list, FORMAT) == setting(f2, FORMAT)) by {
        reveal_with_fuel(setting, 6);
    }
    assert(setting(list, IMAGE) == setting(f3, IMAGE)) by {
        reveal_with_fuel(setting, 6);
    }
    assert(setting(list, QUIET) == setting(f4, QUIET)) by {
        reveal_with_fuel(setting, 6);
    }
}

/// Control data holds no byte that its fields do not hold, but commas.
proof fn lemma_joined_bytes(list: Seq<Seq<u8>>, byte: u8)
    requires
        byte != COMMA,
        forall|k: int| 0 <= k < list.len() ==> !(#[trigger] list[k]).contains(byte),
    ensures
        !joined(list).contains(byte),
    decreases list.len(),
{
    if list.len() > 1 {
        let rest = list.drop_first();
        assert forall|k: int| 0 <= k < rest.len() implies !(#[trigger] rest[k]).contains(byte) by {
            assert(rest[k] == list[k + 1]);
        }
        lemma_joined_bytes(rest, byte);
        let control = joined(list);
        if control.contains(byte) {
            let i = choose|i: int| 0 <= i < control.len() && control[i] == byte;
            let n = list[0].len() as int;
            if i < n {
                assert(list[0].contains(list[0][i]));
            } else {
                assert(joined(rest).contains(joined(rest)[i - n - 1]));
            }
        }
    }
}

/// Control data is its fields with commas between them, and no field holds one.
pub proof fn law_control_is_its_fields(control: Seq<u8>)
    ensures
        fields(control).len() > 0,
        joined(fields(control)) == control,
        forall|k: int| 0 <= k < fields(control).len() ==> !(#[trigger] fields(control)[k]).contains(
            0x2c,
        ),
    decreases control.len(),
{
    let i = index_of(control, COMMA) as int;
    lemma_index_of(control, COMMA);
    let list = fields(control);
    if i < control.len() {
        let rest = control.skip(i + 1);
        law_control_is_its_fields(rest);
        assert(list =~= seq![control.take(i)] + fields(rest));
        assert(list.drop_first() =~= fields(rest));
        assert(control.take(i) + seq![COMMA] + rest =~= control);
        assert forall|k: int| 0 <= k < list.len() implies !(#[trigger] list[k]).contains(0x2c) by {
            if k > 0 {
                assert(list[k] == fields(rest)[k - 1]);
            }
        }
    } else {
        assert(list =~= seq![control]);
    }
}

/// What stands before the first equals sign is the key, and what stands behind
/// it the value. Without one there is neither.
pub proof fn law_key_and_value_are_told_apart(key: Seq<u8>, value: Seq<u8>)
    requires
        !key.contains(0x3d),
    ensures
        is_assignment(key + seq![0x3du8] + value),
        key_of(key + seq![0x3du8] + value) == key,
        value_of(key + seq![0x3du8] + value) == value,
        !is_assignment(key),
{
    let field = key + seq![0x3du8] + value;
    assert forall|j: int| 0 <= j < key.len() implies key[j] != 0x3d by {
        assert(key.contains(key[j]));
    }
    assert forall|j: int| 0 <= j < key.len() implies field[j] != 0x3d by {
        assert(field[j] == key[j]);
    }
    lemma_index_of_unique(field, EQUALS, key.len() as int);
    lemma_index_of_unique(key, EQUALS, key.len() as int);
    assert(key_of(field) =~= key);
    assert(value_of(field) =~= value);
}

/// `field` begins with the byte `key` and an equals sign.
pub open spec fn has_key(field: Seq<u8>, key: u8) -> bool {
    field.len() >= 2 && field[0] == key && field[1] == 0x3d
}

/// `value` is one or more bytes from `0` to `9`.
pub open spec fn is_numeral(value: Seq<u8>) -> bool {
    value.len() > 0 && forall|i: int| 0 <= i < value.len() ==> 48 <= #[trigger] value[i] <= 57
}

/// `value` is one or more bytes from `0` to `9`, where the first may be `-` instead.
pub open spec fn is_signed_numeral(value: Seq<u8>) -> bool {
    value.len() > 0 && forall|i: int|
        0 <= i < value.len() ==> 48 <= #[trigger] value[i] <= 57 || (i == 0 && value[i] == 0x2d)
}

/// A key of one byte, seen on the field itself.
proof fn lemma_has_key(field: Seq<u8>, key: u8)
    requires
        key != 0x3d,
    ensures
        has_key(field, key) <==> is_assignment(field) && key_of(field) == seq![key],
        has_key(field, key) ==> value_of(field) == field.skip(2),
{
    lemma_index_of(field, EQUALS);
    if has_key(field, key) {
        lemma_index_of_unique(field, EQUALS, 1);
        assert(key_of(field) =~= seq![key]);
    }
    if is_assignment(field) && key_of(field) == seq![key] {
        assert(key_of(field).len() == 1);
        assert(key_of(field)[0] == field[0]);
        assert(seq![key][0] == key);
    }
}

proof fn lemma_is_numeral(value: Seq<u8>)
    ensures
        number(value) is Some <==> is_numeral(value),
        is_signed_digits(value) <==> is_signed_numeral(value),
{
    crate::bytes_laws::law_numbers_are_digits(value);
    if value.len() > 0 {
        let rest = value.skip(1);
        crate::bytes_laws::law_numbers_are_digits(rest);
        if is_signed_digits(value) {
            assert forall|i: int| 0 <= i < value.len() implies 48 <= #[trigger] value[i] <= 57 || (i
                == 0 && value[i] == 0x2d) by {
                if value[0] == 0x2d && i > 0 {
                    assert(rest[i - 1] == value[i]);
                }
            }
        }
        if is_signed_numeral(value) {
            assert forall|i: int| 0 <= i < rest.len() implies 48 <= #[trigger] rest[i] <= 57 by {
                assert(rest[i] == value[i + 1]);
            }
            if value[0] != 0x2d {
                assert forall|i: int| 0 <= i < value.len() implies 48 <= #[trigger] value[i]
                    <= 57 by {}
            }
        }
    }
}

/// No field has a key that is counted zero times.
proof fn lemma_uncounted_key(list: Seq<Seq<u8>>, key: u8, k: int)
    requires
        key_count(list, key) == 0,
        0 <= k < list.len(),
    ensures
        key_of(list[k]) != seq![key],
    decreases list.len(),
{
    if k < list.len() - 1 {
        lemma_uncounted_key(list.drop_last(), key, k);
    }
}

/// A key that no field has is counted zero times.
proof fn lemma_missing_key(list: Seq<Seq<u8>>, key: u8)
    requires
        forall|k: int| 0 <= k < list.len() ==> key_of(#[trigger] list[k]) != seq![key],
    ensures
        key_count(list, key) == 0,
    decreases list.len(),
{
    if list.len() > 0 {
        let front = list.drop_last();
        assert forall|k: int| 0 <= k < front.len() implies key_of(#[trigger] front[k])
            != seq![key] by {
            assert(front[k] == list[k]);
        }
        lemma_missing_key(front, key);
        assert(list.last() == list[list.len() - 1]);
    }
}

/// No two fields have a key that is counted once.
proof fn lemma_key_counted_once(list: Seq<Seq<u8>>, key: u8, j: int, k: int)
    requires
        key_count(list, key) == 1,
        0 <= j < list.len(),
        0 <= k < list.len(),
        key_of(list[j]) == seq![key],
        key_of(list[k]) == seq![key],
    ensures
        j == k,
    decreases list.len(),
{
    let front = list.drop_last();
    if key_of(list.last()) == seq![key] {
        if j < front.len() {
            lemma_uncounted_key(front, key, j);
        }
        if k < front.len() {
            lemma_uncounted_key(front, key, k);
        }
    } else {
        lemma_key_counted_once(front, key, j, k);
    }
}

/// A key that one field has and no other is counted once.
proof fn lemma_single_key(list: Seq<Seq<u8>>, key: u8, k: int)
    requires
        0 <= k < list.len(),
        key_of(list[k]) == seq![key],
        forall|j: int|
            0 <= j < list.len() && j != k ==> key_of(#[trigger] list[j]) != seq![key],
    ensures
        key_count(list, key) == 1,
    decreases list.len(),
{
    let front = list.drop_last();
    assert forall|j: int| 0 <= j < front.len() && j != k implies key_of(#[trigger] front[j])
        != seq![key] by {
        assert(front[j] == list[j]);
    }
    assert(list.last() == list[list.len() - 1]);
    if k < front.len() {
        lemma_single_key(front, key, k);
    } else {
        lemma_missing_key(front, key);
    }
}

/// The fields of a reply, seen on their bytes.
proof fn lemma_reply_field(field: Seq<u8>, image: u32)
    ensures
        is_reply_field(field, image) <==> {
            &&& has_key(field, 0x69) || has_key(field, 0x49) || has_key(field, 0x70)
            &&& is_numeral(field.skip(2))
            &&& has_key(field, 0x69) ==> number(field.skip(2)) == Some(image as nat)
        },
        is_reply_field(field, image) ==> (has_key(field, 0x69) <==> key_of(field)
            == seq![0x69u8]),
{
    lemma_has_key(field, 0x69);
    lemma_has_key(field, 0x49);
    lemma_has_key(field, 0x70);
    lemma_is_numeral(field.skip(2));
    assert(seq![0x69u8][0] == 0x69u8 && seq![0x49u8][0] == 0x49u8 && seq![0x70u8][0] == 0x70u8);
}

/// Which control data is that of a reply about an image: a list of `i`, `I` and
/// `p` fields with numerals of any length, in any order, of which exactly one is
/// an `i` field, and that one writes the image's number.
pub proof fn law_reply_control_is_exactly(list: Seq<Seq<u8>>, image: u32)
    requires
        list.len() > 0,
        forall|k: int| 0 <= k < list.len() ==> !(#[trigger] list[k]).contains(0x2c),
    ensures
        reply_names(joined(list), image) <==> {
            &&& forall|k: int|
                0 <= k < list.len() ==> {
                    &&& has_key(#[trigger] list[k], 0x69) || has_key(list[k], 0x49) || has_key(
                        list[k],
                        0x70,
                    )
                    &&& is_numeral(list[k].skip(2))
                }
            &&& exists|k: int|
                {
                    &&& 0 <= k < list.len()
                    &&& has_key(#[trigger] list[k], 0x69)
                    &&& number(list[k].skip(2)) == Some(image as nat)
                    &&& forall|j: int|
                        0 <= j < list.len() && has_key(#[trigger] list[j], 0x69) ==> j == k
                }
        },
{
    law_fields_are_found_again(list);
    assert forall|k: int| 0 <= k < list.len() implies #[trigger] fields(joined(list))[k]
        == list[k] by {}
    if reply_names(joined(list), image) {
        let k = lemma_counted_key(list, 0x69);
        assert forall|j: int| 0 <= j < list.len() implies is_reply_field(
            #[trigger] list[j],
            image,
        ) by {
            assert(is_reply_field(fields(joined(list))[j], image));
        }
        assert forall|j: int| 0 <= j < list.len() implies {
            &&& has_key(#[trigger] list[j], 0x69) || has_key(list[j], 0x49) || has_key(
                list[j],
                0x70,
            )
            &&& is_numeral(list[j].skip(2))
        } by {
            lemma_reply_field(list[j], image);
        }
        lemma_reply_field(list[k], image);
        assert forall|j: int| 0 <= j < list.len() && has_key(#[trigger] list[j], 0x69) implies j
            == k by {
            lemma_reply_field(list[j], image);
            lemma_key_counted_once(list, 0x69, j, k);
        }
        assert(has_key(list[k], 0x69));
    }
    if {
        &&& forall|k: int|
            0 <= k < list.len() ==> {
                &&& has_key(#[trigger] list[k], 0x69) || has_key(list[k], 0x49) || has_key(
                    list[k],
                    0x70,
                )
                &&& is_numeral(list[k].skip(2))
            }
        &&& exists|k: int|
            {
                &&& 0 <= k < list.len()
                &&& has_key(#[trigger] list[k], 0x69)
                &&& number(list[k].skip(2)) == Some(image as nat)
                &&& forall|j: int|
                    0 <= j < list.len() && has_key(#[trigger] list[j], 0x69) ==> j == k
            }
    } {
        let k = choose|k: int|
            {
                &&& 0 <= k < list.len()
                &&& has_key(#[trigger] list[k], 0x69)
                &&& number(list[k].skip(2)) == Some(image as nat)
                &&& forall|j: int|
                    0 <= j < list.len() && has_key(#[trigger] list[j], 0x69) ==> j == k
            };
        assert forall|j: int| 0 <= j < list.len() implies is_reply_field(
            #[trigger] list[j],
            image,
        ) by {
            lemma_reply_field(list[j], image);
        }
        lemma_reply_field(list[k], image);
        assert forall|j: int| 0 <= j < list.len() && j != k implies key_of(#[trigger] list[j])
            != seq![0x69u8] by {
            lemma_reply_field(list[j], image);
        }
        lemma_single_key(list, 0x69, k);
    }
}

/// A field that an outgoing command may have, seen on its bytes: a key of one
/// byte, an equals sign, and, unless the key is `a`, a numeral that may be signed.
pub open spec fn has_command_form(field: Seq<u8>) -> bool {
    &&& field.len() >= 2
    &&& field[1] == 0x3d
    &&& {
        ||| field[0] == 0x61 || field[0] == 0x66 || field[0] == 0x69 || field[0] == 0x70
        ||| field[0] == 0x71 || field[0] == 0x43 || field[0] == 0x73 || field[0] == 0x76
        ||| field[0] == 0x63 || field[0] == 0x72 || field[0] == 0x7a || field[0] == 0x78
        ||| field[0] == 0x79 || field[0] == 0x77 || field[0] == 0x68 || field[0] == 0x58
        ||| field[0] == 0x59
    }
    &&& field[0] == 0x61 || is_signed_numeral(field.skip(2))
}

/// The last field of `list` with the key `key` has the value `value`.
pub open spec fn ends_up_with(list: Seq<Seq<u8>>, key: u8, value: Seq<u8>) -> bool {
    exists|k: int|
        {
            &&& 0 <= k < list.len()
            &&& has_key(#[trigger] list[k], key)
            &&& list[k].skip(2) == value
            &&& forall|j: int| k < j < list.len() ==> !has_key(#[trigger] list[j], key)
        }
}

proof fn lemma_command_form(field: Seq<u8>)
    ensures
        is_command_field(field) <==> has_command_form(field),
{
    lemma_index_of(field, EQUALS);
    if field.len() >= 2 {
        lemma_is_numeral(field.skip(2));
        if field[0] != 0x3d {
            lemma_has_key(field, field[0]);
        }
    }
    if is_command_field(field) {
        let key = key_of(field);
        assert(key =~= seq![key[0]]);
        assert(key[0] == field[0]);
    }
    if has_command_form(field) {
        assert(key_of(field)[0] == field[0]) by {
            assert(seq![field[0]][0] == field[0]);
        }
    }
}

/// Where a setting comes from.
proof fn lemma_setting(list: Seq<Seq<u8>>, key: u8) -> (k: int)
    requires
        key != 0x3d,
        forall|j: int| 0 <= j < list.len() ==> is_assignment(#[trigger] list[j]),
    ensures
        setting(list, key) matches Some(value) ==> {
            &&& 0 <= k < list.len()
            &&& has_key(list[k], key)
            &&& list[k].skip(2) == value
            &&& forall|j: int| k < j < list.len() ==> !has_key(#[trigger] list[j], key)
        },
        setting(list, key) is None ==> forall|j: int|
            0 <= j < list.len() ==> !has_key(#[trigger] list[j], key),
    decreases list.len(),
{
    if list.len() == 0 {
        0
    } else {
        let last = list.len() - 1;
        lemma_has_key(list[last], key);
        assert(list.last() == list[last]);
        if key_of(list.last()) == seq![key] {
            last
        } else {
            let front = list.drop_last();
            assert forall|j: int| 0 <= j < front.len() implies is_assignment(
                #[trigger] front[j],
            ) by {
                assert(front[j] == list[j]);
            }
            let k = lemma_setting(front, key);
            assert forall|j: int|
                0 <= j < list.len() && (j == last || !has_key(front[j], key)) implies !has_key(
                #[trigger] list[j],
                key,
            ) by {
                if j < last {
                    assert(front[j] == list[j]);
                }
            }
            k
        }
    }
}

/// A setting is the value that the last field with its key has.
proof fn lemma_ends_up_with(list: Seq<Seq<u8>>, key: u8, value: Seq<u8>)
    requires
        key != 0x3d,
        forall|j: int| 0 <= j < list.len() ==> is_assignment(#[trigger] list[j]),
    ensures
        setting(list, key) == Some(value) <==> ends_up_with(list, key, value),
{
    let k = lemma_setting(list, key);
    if setting(list, key) == Some(value) {
        assert(has_key(list[k], key));
    }
    if ends_up_with(list, key, value) {
        let l = choose|l: int|
            {
                &&& 0 <= l < list.len()
                &&& has_key(#[trigger] list[l], key)
                &&& list[l].skip(2) == value
                &&& forall|j: int| l < j < list.len() ==> !has_key(#[trigger] list[j], key)
            };
        assert(has_key(list[l], key));
        if setting(list, key) is Some {
            assert(has_key(list[k], key));
            assert(k == l);
        }
    }
}

/// A byte that a field holds is held by the control data too.
proof fn lemma_field_bytes(list: Seq<Seq<u8>>, byte: u8, k: int)
    requires
        0 <= k < list.len(),
        list[k].contains(byte),
    ensures
        joined(list).contains(byte),
    decreases list.len(),
{
    let control = joined(list);
    if list.len() > 1 {
        let rest = list.drop_first();
        let n = list[0].len() as int;
        if k == 0 {
            let i = choose|i: int| 0 <= i < n && list[0][i] == byte;
            assert(control[i] == byte);
        } else {
            assert(rest[k - 1] == list[k]);
            lemma_field_bytes(rest, byte, k - 1);
            let i = choose|i: int| 0 <= i < joined(rest).len() && joined(rest)[i] == byte;
            assert(control[n + 1 + i] == byte);
        }
    }
}

/// Which control data is valid for an image: at most 1024 bytes of fields that
/// an outgoing command may have, with numerals of any length, in any order and
/// any number, of which the last `a` is `T`, the last `f` is `32`, the last `q`
/// is `0`, the last `C` is `1`, and the last `i` writes the image's number; and
/// no semicolon or escape byte in any of them.
pub proof fn law_command_control_is_exactly(list: Seq<Seq<u8>>, image: u32)
    requires
        list.len() > 0,
        forall|k: int| 0 <= k < list.len() ==> !(#[trigger] list[k]).contains(0x2c),
    ensures
        is_valid_control(joined(list), image) <==> {
            &&& joined(list).len() <= 1024
            &&& forall|k: int|
                0 <= k < list.len() ==> !(#[trigger] list[k]).contains(0x3b) && !list[k].contains(
                    0x1b,
                )
            &&& forall|k: int| 0 <= k < list.len() ==> has_command_form(#[trigger] list[k])
            &&& ends_up_with(list, 0x61, seq![0x54u8])
            &&& ends_up_with(list, 0x66, seq![0x33u8, 0x32u8])
            &&& ends_up_with(list, 0x71, seq![0x30u8])
            &&& ends_up_with(list, 0x43, seq![0x31u8])
            &&& exists|value: Seq<u8>| #[trigger]
                ends_up_with(list, 0x69, value) && number(value) == Some(image as nat)
        },
{
    let control = joined(list);
    law_fields_are_found_again(list);
    assert((forall|k: int|
        0 <= k < list.len() ==> !(#[trigger] list[k]).contains(0x3b) && !list[k].contains(0x1b))
        <==> !control.contains(0x3b) && !control.contains(0x1b)) by {
        if forall|k: int|
            0 <= k < list.len() ==> !(#[trigger] list[k]).contains(0x3b) && !list[k].contains(
                0x1b,
            ) {
            lemma_joined_bytes(list, 0x3b);
            lemma_joined_bytes(list, 0x1b);
        }
        if !control.contains(0x3b) && !control.contains(0x1b) {
            assert forall|k: int| 0 <= k < list.len() implies !(#[trigger] list[k]).contains(0x3b)
                && !list[k].contains(0x1b) by {
                if list[k].contains(0x3b) {
                    lemma_field_bytes(list, 0x3b, k);
                }
                if list[k].contains(0x1b) {
                    lemma_field_bytes(list, 0x1b, k);
                }
            }
        }
    }
    assert forall|k: int| 0 <= k < list.len() implies is_command_field(#[trigger] list[k])
        == has_command_form(list[k]) by {
        lemma_command_form(list[k]);
    }
    if forall|k: int| 0 <= k < list.len() ==> is_command_field(#[trigger] list[k]) {
        assert forall|k: int| 0 <= k < list.len() implies is_assignment(#[trigger] list[k]) by {
            assert(is_command_field(list[k]));
        }
        lemma_ends_up_with(list, 0x61, seq![0x54u8]);
        lemma_ends_up_with(list, 0x66, seq![0x33u8, 0x32u8]);
        lemma_ends_up_with(list, 0x71, seq![0x30u8]);
        lemma_ends_up_with(list, 0x43, seq![0x31u8]);
        if let Some(value) = setting(list, 0x69) {
            lemma_ends_up_with(list, 0x69, value);
        }
        if exists|value: Seq<u8>| #[trigger]
            ends_up_with(list, 0x69, value) && number(value) == Some(image as nat) {
            let value = choose|value: Seq<u8>| #[trigger]
                ends_up_with(list, 0x69, value) && number(value) == Some(image as nat);
            lemma_ends_up_with(list, 0x69, value);
        }
        assert(is_image(setting(list, 0x69), image) <==> exists|value: Seq<u8>| #[trigger]
            ends_up_with(list, 0x69, value) && number(value) == Some(image as nat));
    }
}

/// The length of control data with one more field.
proof fn lemma_joined_push(list: Seq<Seq<u8>>, field: Seq<u8>)
    requires
        list.len() > 0,
    ensures
        joined(list.push(field)).len() == joined(list).len() + 1 + field.len(),
    decreases list.len(),
{
    let more = list.push(field);
    if list.len() == 1 {
        assert(more.drop_first() =~= seq![field]);
        assert(joined(seq![field]) == field);
    } else {
        assert(more.drop_first() =~= list.drop_first().push(field));
        lemma_joined_push(list.drop_first(), field);
    }
}

/// A last setting is still the last one behind a field with another key.
proof fn lemma_ends_up_with_push(list: Seq<Seq<u8>>, field: Seq<u8>, key: u8, value: Seq<u8>)
    requires
        ends_up_with(list, key, value),
        !has_key(field, key),
    ensures
        ends_up_with(list.push(field), key, value),
{
    let more = list.push(field);
    let k = choose|k: int|
        {
            &&& 0 <= k < list.len()
            &&& has_key(#[trigger] list[k], key)
            &&& list[k].skip(2) == value
            &&& forall|j: int| k < j < list.len() ==> !has_key(#[trigger] list[j], key)
        };
    assert(more[k] == list[k]);
    assert forall|j: int| k < j < more.len() implies !has_key(#[trigger] more[j], key) by {
        if j < list.len() {
            assert(more[j] == list[j]);
        }
    }
}

/// To valid control data any setting can be added that says nothing of the
/// action, the format, the image, replies or the cursor, with any numeral that
/// may be signed, as long as the control data does not grow too long.
pub proof fn law_settings_can_be_added(
    list: Seq<Seq<u8>>,
    key: u8,
    value: Seq<u8>,
    image: u32,
)
    requires
        list.len() > 0,
        forall|k: int| 0 <= k < list.len() ==> !(#[trigger] list[k]).contains(0x2c),
        is_valid_control(joined(list), image),
        key == 0x70 || key == 0x73 || key == 0x76 || key == 0x63 || key == 0x72 || key == 0x7a
            || key == 0x78 || key == 0x79 || key == 0x77 || key == 0x68 || key == 0x58 || key
            == 0x59,
        is_signed_numeral(value),
        joined(list).len() + 3 + value.len() <= 1024,
    ensures
        is_valid_control(joined(list.push(assignment(key, value))), image),
        joined(list.push(assignment(key, value))).len() == joined(list).len() + 3 + value.len(),
        forall|k: int|
            0 <= k < list.push(assignment(key, value)).len() ==> !(#[trigger] list.push(
                assignment(key, value),
            )[k]).contains(0x2c),
{
    let field = assignment(key, value);
    let more = list.push(field);
    lemma_joined_push(list, field);
    law_command_control_is_exactly(list, image);
    assert(field.skip(2) =~= value);
    assert forall|byte: u8|
        byte == 0x2c || byte == 0x3b || byte == 0x1b implies !field.contains(byte) by {
        if field.contains(byte) {
            let i = choose|i: int| 0 <= i < field.len() && field[i] == byte;
            if i >= 2 {
                assert(field[i] == value[i - 2]);
            }
        }
    }
    assert forall|k: int| 0 <= k < more.len() implies {
        &&& !(#[trigger] more[k]).contains(0x2c)
        &&& !more[k].contains(0x3b)
        &&& !more[k].contains(0x1b)
        &&& has_command_form(more[k])
    } by {
        if k < list.len() {
            assert(more[k] == list[k]);
        }
    }
    law_command_control_is_exactly(more, image);
    lemma_ends_up_with_push(list, field, 0x61, seq![0x54u8]);
    lemma_ends_up_with_push(list, field, 0x66, seq![0x33u8, 0x32u8]);
    lemma_ends_up_with_push(list, field, 0x71, seq![0x30u8]);
    lemma_ends_up_with_push(list, field, 0x43, seq![0x31u8]);
    let written = choose|written: Seq<u8>| #[trigger]
        ends_up_with(list, 0x69, written) && number(written) == Some(image as nat);
    lemma_ends_up_with_push(list, field, 0x69, written);
}

/// Of several fields with the key `i` the last one counts: behind valid control
/// data for one image, the number of another makes it valid for that one.
pub proof fn law_last_image_counts(list: Seq<Seq<u8>>, image: u32, other: u32)
    requires
        list.len() > 0,
        forall|k: int| 0 <= k < list.len() ==> !(#[trigger] list[k]).contains(0x2c),
        is_valid_control(joined(list), image),
        joined(list).len() + 13 <= 1024,
    ensures
        is_valid_control(joined(list.push(assignment(0x69, digits(other as nat)))), other),
{
    let value = digits(other as nat);
    let field = assignment(0x69, value);
    let more = list.push(field);
    lemma_joined_push(list, field);
    lemma_u32_digits_len(other);
    law_number_is_read_back(other as nat);
    lemma_is_numeral(value);
    law_command_control_is_exactly(list, image);
    assert(field.skip(2) =~= value);
    assert forall|byte: u8|
        byte == 0x2c || byte == 0x3b || byte == 0x1b implies !field.contains(byte) by {
        if field.contains(byte) {
            let i = choose|i: int| 0 <= i < field.len() && field[i] == byte;
            if i >= 2 {
                assert(field[i] == value[i - 2]);
            }
        }
    }
    assert forall|k: int| 0 <= k < more.len() implies {
        &&& !(#[trigger] more[k]).contains(0x2c)
        &&& !more[k].contains(0x3b)
        &&& !more[k].contains(0x1b)
        &&& has_command_form(more[k])
    } by {
        if k < list.len() {
            assert(more[k] == list[k]);
        }
    }
    law_command_control_is_exactly(more, other);
    lemma_ends_up_with_push(list, field, 0x61, seq![0x54u8]);
    lemma_ends_up_with_push(list, field, 0x66, seq![0x33u8, 0x32u8]);
    lemma_ends_up_with_push(list, field, 0x71, seq![0x30u8]);
    lemma_ends_up_with_push(list, field, 0x43, seq![0x31u8]);
    assert(ends_up_with(more, 0x69, value)) by {
        assert(has_key(more[more.len() - 1], 0x69));
    }
}

/// Every image of every size has valid control data: the size in pixels can be
/// added to the shortest command.
pub proof fn law_sized_command_is_valid(image: u32, width: u32, height: u32)
    ensures
        is_valid_control(
            joined(
                plain_command_fields(image).push(assignment(0x73, digits(width as nat))).push(
                    assignment(0x76, digits(height as nat)),
                ),
            ),
            image,
        ),
{
    let list = plain_command_fields(image);
    law_plain_command_is_valid(image);
    lemma_digits_hold_digits(image as nat, 0x2c);
    assert forall|k: int| 0 <= k < list.len() implies !(#[trigger] list[k]).contains(0x2c) by {
        if list[k].contains(0x2c) {
            let i = choose|i: int| 0 <= i < list[k].len() && list[k][i] == 0x2c;
            assert(k == 2 && i >= 2);
            assert(digits(image as nat)[i - 2] == 0x2c);
            assert(digits(image as nat).contains(0x2c));
        }
    }
    lemma_u32_digits_len(width);
    lemma_u32_digits_len(height);
    law_number_is_read_back(width as nat);
    law_number_is_read_back(height as nat);
    lemma_is_numeral(digits(width as nat));
    lemma_is_numeral(digits(height as nat));
    law_settings_can_be_added(list, 0x73, digits(width as nat), image);
    law_settings_can_be_added(
        list.push(assignment(0x73, digits(width as nat))),
        0x76,
        digits(height as nat),
        image,
    );
}

} // verus!
