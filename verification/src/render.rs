//! Turning a batch back into text, and naming its output file.
//!
//! A batch is serialized by writing each statement followed by a semicolon,
//! with a blank line between consecutive statements.  Output files carry a
//! sequential index, one-based, zero-padded to at least three digits, so
//! that reading the files in name order restores plan order.

use vstd::prelude::*;
use vstd::string::StringExecFns;
use vstd::utf8::encode_scalar;
use vstd::utf8::encode_utf8;

use crate::plan::batch_size;
use crate::plan::stmt_size;
use crate::scan::push_char;

verus! {

/// The text of a batch: every statement followed by `;`, a blank line
/// between consecutive statements.
pub open spec fn serialize_spec(b: Seq<Seq<char>>) -> Seq<char>
    decreases b.len(),
{
    if b.len() == 0 {
        Seq::empty()
    } else if b.len() == 1 {
        b[0] + seq![';']
    } else {
        serialize_spec(b.drop_last()) + seq!['\n', '\n'] + b.last() + seq![';']
    }
}

/// The serialized text of `batch`.
pub fn serialize_batch(batch: &Vec<String>) -> (r: String)
    ensures
        r@ == serialize_spec(batch.deep_view()),
{
    let ghost bv = batch.deep_view();
    let mut out = String::new();
    let mut i: usize = 0;
    proof {
        assert(bv.take(0) =~= Seq::<Seq<char>>::empty());
    }
    while i < batch.len()
        invariant
            i <= batch.len(),
            bv == batch.deep_view(),
            out@ == serialize_spec(bv.take(i as int)),
        decreases batch.len() - i,
    {
        if i > 0 {
            out.append("\n\n");
        }
        out.append(batch[i].as_str());
        out.append(";");
        i += 1;
        proof {
            reveal_strlit("\n\n");
            reveal_strlit(";");
            assert(";"@ =~= seq![';']);
            assert("\n\n"@ =~= seq!['\n', '\n']);
            assert(batch@[i - 1]@ == bv[i - 1]);
            assert(bv.take(i as int).drop_last() =~= bv.take(i - 1));
            assert(bv.take(i as int).last() == bv[i - 1]);
            if i == 1 {
                assert(serialize_spec(bv.take(1)) == bv.take(1)[0] + seq![';']);
                assert(out@ =~= serialize_spec(bv.take(1)));
            } else {
                assert(serialize_spec(bv.take(i as int)) == serialize_spec(bv.take(i - 1))
                    + seq!['\n', '\n'] + bv[i - 1] + seq![';']);
            }
        }
    }
    proof {
        assert(bv.take(batch@.len() as int) =~= bv);
    }
    out
}

/// UTF-8 encoding distributes over concatenation.
proof fn lemma_encode_utf8_concat(a: Seq<char>, b: Seq<char>)
    ensures
        encode_utf8(a + b) == encode_utf8(a) + encode_utf8(b),
    decreases a.len(),
{
    if a.len() == 0 {
        assert(a + b =~= b);
        assert(encode_utf8(a) + encode_utf8(b) =~= encode_utf8(b));
    } else {
        assert((a + b)[0] == a[0]);
        assert((a + b).drop_first() =~= a.drop_first() + b);
        lemma_encode_utf8_concat(a.drop_first(), b);
        assert(encode_scalar(a[0] as u32) + (encode_utf8(a.drop_first()) + encode_utf8(b)) =~= (
        encode_scalar(a[0] as u32) + encode_utf8(a.drop_first())) + encode_utf8(b));
    }
}

/// A lone ASCII character encodes to one byte.
proof fn lemma_ascii_char_one_byte(c: char)
    requires
        (c as u32) < 128,
    ensures
        encode_utf8(seq![c]).len() == 1,
{
    assert(seq![c][0] == c);
    assert(seq![c].drop_first() =~= Seq::<char>::empty());
    assert(encode_utf8(seq![c]) == encode_scalar(c as u32) + encode_utf8(
        Seq::<char>::empty(),
    ));
    assert(vstd::utf8::has_width_1_encoding(c as u32));
    assert(encode_scalar(c as u32).len() == 1);
    assert(encode_utf8(Seq::<char>::empty()) =~= Seq::<u8>::empty());
}

/// What a batch's text actually weighs: every statement's planner
/// contribution, plus the two bytes of blank line between consecutive
/// statements.
pub proof fn lemma_serialized_size(b: Seq<Seq<char>>)
    requires
        b.len() > 0,
    ensures
        encode_utf8(serialize_spec(b)).len() == batch_size(b) + 2 * (b.len() - 1),
    decreases b.len(),
{
    if b.len() == 1 {
        lemma_encode_utf8_concat(b[0], seq![';']);
        lemma_ascii_char_one_byte(';');
        assert(batch_size(b) == batch_size(b.drop_last()) + stmt_size(b.last()));
        assert(b.drop_last() =~= Seq::<Seq<char>>::empty());
        assert(b.last() == b[0]);
    } else {
        lemma_serialized_size(b.drop_last());
        lemma_encode_utf8_concat(serialize_spec(b.drop_last()), seq!['\n', '\n']);
        lemma_encode_utf8_concat(
            serialize_spec(b.drop_last()) + seq!['\n', '\n'],
            b.last(),
        );
        lemma_encode_utf8_concat(
            serialize_spec(b.drop_last()) + seq!['\n', '\n'] + b.last(),
            seq![';'],
        );
        lemma_ascii_char_one_byte(';');
        assert(encode_utf8(seq!['\n', '\n']).len() == 2) by {
            lemma_encode_utf8_concat(seq!['\n'], seq!['\n']);
            assert(seq!['\n'] + seq!['\n'] =~= seq!['\n', '\n']);
            lemma_ascii_char_one_byte('\n');
        }
    }
}

/// The character for one decimal digit.
pub open spec fn digit_char(d: nat) -> char
    recommends
        d < 10,
{
    ((48 + d) as u8) as char
}

/// The decimal digits of `n`, most significant first.
pub open spec fn digits_of(n: nat) -> Seq<char>
    decreases n,
{
    if n < 10 {
        seq![digit_char(n)]
    } else {
        digits_of(n / 10).push(digit_char(n % 10))
    }
}

/// The decimal digits of `n`, padded with zeros to at least three.
pub open spec fn padded_digits(n: nat) -> Seq<char> {
    if n < 10 {
        seq!['0', '0'] + digits_of(n)
    } else if n < 100 {
        seq!['0'] + digits_of(n)
    } else {
        digits_of(n)
    }
}

/// The name of the output file that carries the batch with the one-based
/// `index`.
pub open spec fn file_name_spec(index: nat) -> Seq<char> {
    seq!['s', 'p', 'l', 'i', 't', '_'] + padded_digits(index) + seq!['.', 's', 'q', 'l']
}

/// How many digits a number has.
proof fn lemma_digits_of_len(n: nat)
    ensures
        n < 10 ==> digits_of(n).len() == 1,
        10 <= n < 100 ==> digits_of(n).len() == 2,
        n >= 100 ==> digits_of(n).len() >= 3,
    decreases n,
{
    if n >= 10 {
        lemma_digits_of_len(n / 10);
    }
}

/// The name of the output file for the batch with the one-based `index`:
/// `split_`, then the index zero-padded to at least three digits, then
/// `.sql`.  Ascending name order is ascending plan order.
pub fn file_name(index: usize) -> (r: String)
    ensures
        r@ == file_name_spec(index as nat),
{
    let mut digits: Vec<char> = Vec::new();
    if index == 0 {
        digits.push('0');
        proof {
            assert(digits@ =~= digits_of(0));
        }
    } else {
        let mut m: usize = index;
        while m > 0
            invariant
                m <= index,
                m > 0 ==> digits_of(index as nat) == digits_of(m as nat) + digits@,
                m == 0 ==> digits_of(index as nat) == digits@,
            decreases m,
        {
            let ghost olddigits = digits@;
            let rem: usize = m % 10;
            let c: char = (48u8 + rem as u8) as char;
            digits.insert(0, c);
            proof {
                assert(c == digit_char((m as nat) % 10));
                assert(digits@ =~= seq![c] + olddigits);
            }
            m = m / 10;
            proof {
                if m > 0 {
                    assert(digits_of((m * 10 + rem) as nat) == digits_of(m as nat).push(c));
                    assert(digits_of(m as nat).push(c) + olddigits =~= digits_of(m as nat)
                        + digits@);
                } else {
                    assert(digits_of((rem) as nat) == seq![c]);
                    assert(seq![c] + olddigits =~= digits@);
                }
            }
        }
    }
    proof {
        assert(digits@ == digits_of(index as nat));
        lemma_digits_of_len(index as nat);
    }
    if digits.len() == 1 {
        digits.insert(0, '0');
        digits.insert(0, '0');
        proof {
            assert(digits@ =~= padded_digits(index as nat));
        }
    } else if digits.len() == 2 {
        digits.insert(0, '0');
        proof {
            assert(digits@ =~= padded_digits(index as nat));
        }
    } else {
        proof {
            assert(digits@ =~= padded_digits(index as nat));
        }
    }
    let mut out = String::from_str("split_");
    proof {
        reveal_strlit("split_");
        assert("split_"@ =~= seq!['s', 'p', 'l', 'i', 't', '_']);
        assert(out@ =~= seq!['s', 'p', 'l', 'i', 't', '_'] + digits@.take(0));
    }
    let mut k: usize = 0;
    while k < digits.len()
        invariant
            k <= digits@.len(),
            digits@ == padded_digits(index as nat),
            out@ == seq!['s', 'p', 'l', 'i', 't', '_'] + digits@.take(k as int),
        decreases digits@.len() - k,
    {
        push_char(&mut out, digits[k]);
        k += 1;
        proof {
            assert(digits@.take(k as int) =~= digits@.take(k - 1).push(digits@[k - 1]));
            assert(out@ =~= seq!['s', 'p', 'l', 'i', 't', '_'] + digits@.take(k as int));
        }
    }
    out.append(".sql");
    proof {
        reveal_strlit(".sql");
        assert(".sql"@ =~= seq!['.', 's', 'q', 'l']);
        assert(digits@.take(digits@.len() as int) =~= digits@);
        assert(out@ =~= file_name_spec(index as nat));
    }
    out
}

} // verus!
