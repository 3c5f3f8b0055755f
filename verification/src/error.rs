//! The errors of the library, and their texts.
use vstd::prelude::*;

verus! {

/// The ways in which a call can be refused before any work is done.
#[derive(Debug, Clone)]
pub enum ImgalError {
    /// An array has another length than the one required.
    InvalidArrayLength { arr_name: &'static str, expected: usize, got: usize },
    /// An axis length is not a multiple of the given number.
    InvalidAxisValueNotAMultipleOf { arr_name: &'static str, axis_idx: usize, multiple: usize },
    /// An array that must hold data is empty.
    InvalidParameterEmptyArray { param_name: &'static str },
    /// A parameter has a value that it may not have.
    InvalidParameterValueEqual { param_name: &'static str, value: usize },
    /// A parameter is greater than the greatest value that it may have.
    InvalidParameterValueGreater { param_name: &'static str, value: usize },
    /// Two arrays that must correspond element by element differ in length.
    MismatchedArrayLengths {
        a_arr_name: &'static str,
        a_arr_len: usize,
        b_arr_name: &'static str,
        b_arr_len: usize,
    },
    /// Two arrays that must correspond cell by cell differ in shape.
    MismatchedArrayShapes {
        a_arr_name: &'static str,
        a_shape: Vec<usize>,
        b_arr_name: &'static str,
        b_shape: Vec<usize>,
    },
}

/// The character of a decimal digit.
pub open spec fn digit_char(d: int) -> char {
    if d == 0 {
        '0'
    } else if d == 1 {
        '1'
    } else if d == 2 {
        '2'
    } else if d == 3 {
        '3'
    } else if d == 4 {
        '4'
    } else if d == 5 {
        '5'
    } else if d == 6 {
        '6'
    } else if d == 7 {
        '7'
    } else if d == 8 {
        '8'
    } else {
        '9'
    }
}

/// A number in decimal digits, without zeros in front.
pub open spec fn decimal(n: nat) -> Seq<char>
    decreases n,
{
    if n < 10 {
        seq![digit_char(n as int)]
    } else {
        decimal(n / 10).push(digit_char((n % 10) as int))
    }
}

/// The numbers of a shape, each in decimal digits, with a comma and a space
/// between one and the next.
pub open spec fn listed(shape: Seq<usize>) -> Seq<char>
    decreases shape.len(),
{
    if shape.len() == 0 {
        Seq::empty()
    } else if shape.len() == 1 {
        decimal(shape[0] as nat)
    } else {
        listed(shape.drop_last()) + ", "@ + decimal(shape.last() as nat)
    }
}

/// A shape as text: its numbers, listed, in square brackets.
pub open spec fn shape_text(shape: Seq<usize>) -> Seq<char> {
    "["@ + listed(shape) + "]"@
}

/// The text of an error.
pub open spec fn message_of(e: ImgalError) -> Seq<char> {
    match e {
        ImgalError::InvalidArrayLength { arr_name, expected, got } => {
            "Invalid array length, \""@ + arr_name@ + "\" of length "@ + decimal(expected as nat)
                + " expected, but got "@ + decimal(got as nat) + "."@
        },
        ImgalError::InvalidAxisValueNotAMultipleOf { arr_name, axis_idx, multiple } => {
            "Invalid axis value, axis "@ + decimal(axis_idx as nat) + " of \""@ + arr_name@
                + "\" is not a multiple of "@ + decimal(multiple as nat) + "."@
        },
        ImgalError::InvalidParameterEmptyArray { param_name } => {
            "Invalid array parameter, the array \""@ + param_name@ + "\" can not be empty."@
        },
        ImgalError::InvalidParameterValueEqual { param_name, value } => {
            "Invalid parameter value, the parameter \""@ + param_name@ + "\" can not equal "@
                + decimal(value as nat) + "."@
        },
        ImgalError::InvalidParameterValueGreater { param_name, value } => {
            "Invalid parameter value, the parameter \""@ + param_name@
                + "\" can not be greater than "@ + decimal(value as nat) + "."@
        },
        ImgalError::MismatchedArrayLengths { a_arr_name, a_arr_len, b_arr_name, b_arr_len } => {
            "Mismatched array lengths, \""@ + a_arr_name@ + "\" of length "@ + decimal(
                a_arr_len as nat,
            ) + " and \""@ + b_arr_name@ + "\" of length "@ + decimal(b_arr_len as nat)
                + " do not match."@
        },
        ImgalError::MismatchedArrayShapes { a_arr_name, a_shape, b_arr_name, b_shape } => {
            "Mismatched array shapes, array \""@ + a_arr_name@ + "\" with shape "@ + shape_text(
                a_shape@,
            ) + " and array \""@ + b_arr_name@ + "\" with shape "@ + shape_text(b_shape@)
                + " do not match."@
        },
    }
}

/// `push_str` of std's `String`. The contract says what std documents of it:
/// the given text is added at the end.
#[verifier::external_body]
fn append(text: &mut String, more: &str)
    ensures
        final(text)@ == old(text)@ + more@,
{
    text.push_str(more);
}

/// `push` of std's `String`. The contract says what std documents of it: the
/// given character is added at the end.
#[verifier::external_body]
fn append_char(text: &mut String, c: char)
    ensures
        final(text)@ == old(text)@.push(c),
{
    text.push(c);
}

/// The character of a decimal digit.
fn digit(d: usize) -> (c: char)
    requires
        d < 10,
    ensures
        c == digit_char(d as int),
{
    if d == 0 {
        '0'
    } else if d == 1 {
        '1'
    } else if d == 2 {
        '2'
    } else if d == 3 {
        '3'
    } else if d == 4 {
        '4'
    } else if d == 5 {
        '5'
    } else if d == 6 {
        '6'
    } else if d == 7 {
        '7'
    } else if d == 8 {
        '8'
    } else {
        '9'
    }
}

/// Adds a number in decimal digits to the end of a text.
fn append_number(text: &mut String, n: usize)
    ensures
        final(text)@ == old(text)@ + decimal(n as nat),
    decreases n,
{
    if n >= 10 {
        append_number(text, n / 10);
    }
    let ghost before = text@;
    append_char(text, digit(n % 10));
    proof {
        if n >= 10 {
            assert(old(text)@ + decimal(n as nat) =~= before.push(digit_char((n % 10) as int)));
        } else {
            assert(old(text)@ + decimal(n as nat) =~= before.push(digit_char(n as int)));
        }
    }
}

/// Adds a shape, in square brackets, to the end of a text.
fn append_shape(text: &mut String, shape: &Vec<usize>)
    ensures
        final(text)@ == old(text)@ + shape_text(shape@),
{
    append(text, "[");
    let ghost start = text@;
    let mut i: usize = 0;
    proof {
        assert(shape@.subrange(0, 0) =~= Seq::empty());
        assert(start + listed(shape@.subrange(0, 0)) =~= start);
    }
    while i < shape.len()
        invariant
            i <= shape@.len(),
            text@ == start + listed(shape@.subrange(0, i as int)),
        decreases shape@.len() - i,
    {
        let ghost before = listed(shape@.subrange(0, i as int));
        if i > 0 {
            append(text, ", ");
        }
        append_number(text, shape[i]);
        proof {
            let next = shape@.subrange(0, i + 1);
            assert(next.drop_last() =~= shape@.subrange(0, i as int));
            assert(next.last() == shape@[i as int]);
            if i > 0 {
                assert(text@ =~= start + (before + ", "@ + decimal(shape@[i as int] as nat)));
            } else {
                assert(before =~= Seq::empty());
                assert(next[0] == shape@[0]);
                assert(text@ =~= start + decimal(shape@[0] as nat));
            }
        }
        i += 1;
    }
    append(text, "]");
    proof {
        assert(shape@.subrange(0, shape@.len() as int) =~= shape@);
        assert(text@ =~= old(text)@ + shape_text(shape@));
    }
}

impl ImgalError {
    /// The text of the error.
    pub fn message(&self) -> (text: String)
        ensures
            text@ == message_of(*self),
    {
        let mut text: String = String::new();
        match self {
            ImgalError::InvalidArrayLength { arr_name, expected, got } => {
                append(&mut text, "Invalid array length, \"");
                append(&mut text, arr_name);
                append(&mut text, "\" of length ");
                append_number(&mut text, *expected);
                append(&mut text, " expected, but got ");
                append_number(&mut text, *got);
                append(&mut text, ".");
            },
            ImgalError::InvalidAxisValueNotAMultipleOf { arr_name, axis_idx, multiple } => {
                append(&mut text, "Invalid axis value, axis ");
                append_number(&mut text, *axis_idx);
                append(&mut text, " of \"");
                append(&mut text, arr_name);
                append(&mut text, "\" is not a multiple of ");
                append_number(&mut text, *multiple);
                append(&mut text, ".");
            },
            ImgalError::InvalidParameterEmptyArray { param_name } => {
                append(&mut text, "Invalid array parameter, the array \"");
                append(&mut text, param_name);
                append(&mut text, "\" can not be empty.");
            },
            ImgalError::InvalidParameterValueEqual { param_name, value } => {
                append(&mut text, "Invalid parameter value, the parameter \"");
                append(&mut text, param_name);
                append(&mut text, "\" can not equal ");
                append_number(&mut text, *value);
                append(&mut text, ".");
            },
            ImgalError::InvalidParameterValueGreater { param_name, value } => {
                append(&mut text, "Invalid parameter value, the parameter \"");
                append(&mut text, param_name);
                append(&mut text, "\" can not be greater than ");
                append_number(&mut text, *value);
                append(&mut text, ".");
            },
            ImgalError::MismatchedArrayLengths { a_arr_name, a_arr_len, b_arr_name, b_arr_len } => {
                append(&mut text, "Mismatched array lengths, \"");
                append(&mut text, a_arr_name);
                append(&mut text, "\" of length ");
                append_number(&mut text, *a_arr_len);
                append(&mut text, " and \"");
                append(&mut text, b_arr_name);
                append(&mut text, "\" of length ");
                append_number(&mut text, *b_arr_len);
                append(&mut text, " do not match.");
            },
            ImgalError::MismatchedArrayShapes { a_arr_name, a_shape, b_arr_name, b_shape } => {
                append(&mut text, "Mismatched array shapes, array \"");
                append(&mut text, a_arr_name);
                append(&mut text, "\" with shape ");
                append_shape(&mut text, a_shape);
                append(&mut text, " and array \"");
                append(&mut text, b_arr_name);
                append(&mut text, "\" with shape ");
                append_shape(&mut text, b_shape);
                append(&mut text, " do not match.");
            },
        }
        proof {
            assert(text@ =~= message_of(*self));
        }
        text
    }
}

} // verus!
