//! Contest-output rendering: numbers, booleans, vectors and matrices
//! turned into exactly the text a judge expects, one value per call.

use vstd::prelude::*;
use vstd::string::StringExecFns;

verus! {

/// The character for one decimal digit.
pub open spec fn digit_char(d: int) -> char {
    if d == 0 {
        '0'
    } else if d == 1 {
        '1'
    } else if d == 2 {
        '2'
    } else if d == 3 {
        '3'
    } else if d == 4 {
        '4'
    } else if d == 5 {
        '5'
    } else if d == 6 {
        '6'
    } else if d == 7 {
        '7'
    } else if d == 8 {
        '8'
    } else {
        '9'
    }
}

/// The decimal rendering of a nonnegative integer, most significant digit
/// first and without leading zeros.
pub open spec fn dec_spec(v: nat) -> Seq<char>
    decreases v,
{
    if v < 10 {
        seq![digit_char(v as int)]
    } else {
        dec_spec(v / 10) + seq![digit_char((v % 10) as int)]
    }
}

/// The decimal rendering of a signed integer: a minus sign before the
/// magnitude when negative.
pub open spec fn int_spec(v: int) -> Seq<char> {
    if v < 0 {
        seq!['-'] + dec_spec((-v) as nat)
    } else {
        dec_spec(v as nat)
    }
}

/// Append one character to a string.
///
/// Relies on `String::push`, which appends the given character to the end
/// of the string.
#[verifier::external_body]
pub(crate) fn push_char(s: &mut String, c: char)
    ensures
        final(s)@ == old(s)@ + seq![c],
{
    s.push(c);
}

/// Append one decimal digit.
fn push_digit(s: &mut String, d: u128)
    requires
        d < 10,
    ensures
        final(s)@ == old(s)@ + seq![digit_char(d as int)],
{
    proof {
        reveal_strlit("0");
        reveal_strlit("1");
        reveal_strlit("2");
        reveal_strlit("3");
        reveal_strlit("4");
        reveal_strlit("5");
        reveal_strlit("6");
        reveal_strlit("7");
        reveal_strlit("8");
        reveal_strlit("9");
    }
    if d == 0 {
        s.append("0");
    } else if d == 1 {
        s.append("1");
    } else if d == 2 {
        s.append("2");
    } else if d == 3 {
        s.append("3");
    } else if d == 4 {
        s.append("4");
    } else if d == 5 {
        s.append("5");
    } else if d == 6 {
        s.append("6");
    } else if d == 7 {
        s.append("7");
    } else if d == 8 {
        s.append("8");
    } else {
        s.append("9");
    }
    proof {
        assert(final(s)@ =~= old(s)@ + seq![digit_char(d as int)]);
    }
}

/// Append the decimal rendering of a nonnegative integer.
fn push_decimal(s: &mut String, v: u128)
    ensures
        final(s)@ == old(s)@ + dec_spec(v as nat),
    decreases v,
{
    if v >= 10 {
        push_decimal(s, v / 10);
    }
    push_digit(s, v % 10);
    proof {
        if v >= 10 {
            assert(final(s)@ =~= old(s)@ + dec_spec(v as nat));
        } else {
            assert(final(s)@ =~= old(s)@ + dec_spec(v as nat));
        }
    }
}

/// The decimal text of an unsigned value.
pub fn u128_string(v: u128) -> (r: String)
    ensures
        r@ == dec_spec(v as nat),
{
    let mut s = String::new();
    push_decimal(&mut s, v);
    proof {
        assert(s@ =~= dec_spec(v as nat));
    }
    s
}

/// The decimal text of a signed value, with a minus sign when negative.
pub fn i128_string(v: i128) -> (r: String)
    requires
        v > i128::MIN,
    ensures
        r@ == int_spec(v as int),
{
    if v < 0 {
        let mut s = String::new();
        proof {
            reveal_strlit("-");
        }
        s.append("-");
        push_decimal(&mut s, (-v) as u128);
        proof {
            assert(s@ =~= int_spec(v as int));
        }
        s
    } else {
        let r = u128_string(v as u128);
        r
    }
}

/// A value to print one per line.
pub struct Vertical<T>(pub Vec<T>);

/// A matrix to print row by row.
pub struct Mat<T>(pub Vec<Vec<T>>);

/// A wrapper that renders its contents in the format expected by judges:
/// numbers in decimal, booleans as `Yes`/`No`, vectors space-separated,
/// and matrices line by line.
pub struct AtCoder<T>(pub T);

/// The rendering of a sequence of signed integers separated by single
/// spaces.
pub open spec fn join_ints(s: Seq<i64>) -> Seq<char>
    decreases s.len(),
{
    if s.len() == 0 {
        Seq::empty()
    } else if s.len() == 1 {
        int_spec(s[0] as int)
    } else {
        join_ints(s.drop_last()) + seq![' '] + int_spec(s.last() as int)
    }
}

/// The rendering of a sequence of signed integers separated by newlines.
pub open spec fn join_ints_lines(s: Seq<i64>) -> Seq<char>
    decreases s.len(),
{
    if s.len() == 0 {
        Seq::empty()
    } else if s.len() == 1 {
        int_spec(s[0] as int)
    } else {
        join_ints_lines(s.drop_last()) + seq!['\n'] + int_spec(s.last() as int)
    }
}

impl AtCoder<i64> {
    /// The decimal text of the wrapped number.
    pub fn to_string(&self) -> (r: String)
        ensures
            r@ == int_spec(self.0 as int),
    {
        i128_string(self.0 as i128)
    }
}

impl AtCoder<u64> {
    /// The decimal text of the wrapped number.
    pub fn to_string(&self) -> (r: String)
        ensures
            r@ == dec_spec(self.0 as nat),
    {
        u128_string(self.0 as u128)
    }
}

impl AtCoder<i32> {
    /// The decimal text of the wrapped number.
    pub fn to_string(&self) -> (r: String)
        ensures
            r@ == int_spec(self.0 as int),
    {
        i128_string(self.0 as i128)
    }
}

impl AtCoder<u32> {
    /// The decimal text of the wrapped number.
    pub fn to_string(&self) -> (r: String)
        ensures
            r@ == dec_spec(self.0 as nat),
    {
        u128_string(self.0 as u128)
    }
}

impl AtCoder<i16> {
    /// The decimal text of the wrapped number.
    pub fn to_string(&self) -> (r: String)
        ensures
            r@ == int_spec(self.0 as int),
    {
        i128_string(self.0 as i128)
    }
}

impl AtCoder<u16> {
    /// The decimal text of the wrapped number.
    pub fn to_string(&self) -> (r: String)
        ensures
            r@ == dec_spec(self.0 as nat),
    {
        u128_string(self.0 as u128)
    }
}

impl AtCoder<i8> {
    /// The decimal text of the wrapped number.
    pub fn to_string(&self) -> (r: String)
        ensures
            r@ == int_spec(self.0 as int),
    {
        i128_string(self.0 as i128)
    }
}

impl AtCoder<u8> {
    /// The decimal text of the wrapped number.
    pub fn to_string(&self) -> (r: String)
        ensures
            r@ == dec_spec(self.0 as nat),
    {
        u128_string(self.0 as u128)
    }
}

impl AtCoder<i128> {
    /// The decimal text of the wrapped number.
    pub fn to_string(&self) -> (r: String)
        requires
            self.0 > i128::MIN,
        ensures
            r@ == int_spec(self.0 as int),
    {
        i128_string(self.0)
    }
}

impl AtCoder<u128> {
    /// The decimal text of the wrapped number.
    pub fn to_string(&self) -> (r: String)
        ensures
            r@ == dec_spec(self.0 as nat),
    {
        u128_string(self.0)
    }
}

impl AtCoder<isize> {
    /// The decimal text of the wrapped number.
    pub fn to_string(&self) -> (r: String)
        ensures
            r@ == int_spec(self.0 as int),
    {
        i128_string(self.0 as i128)
    }
}

impl AtCoder<usize> {
    /// The decimal text of the wrapped number.
    pub fn to_string(&self) -> (r: String)
        ensures
            r@ == dec_spec(self.0 as nat),
    {
        u128_string(self.0 as u128)
    }
}

impl AtCoder<bool> {
    /// `Yes` or `No`.
    pub fn to_string(&self) -> (r: String)
        ensures
            self.0 ==> r@ == "Yes"@,
            !self.0 ==> r@ == "No"@,
    {
        if self.0 {
            String::from_str("Yes")
        } else {
            String::from_str("No")
        }
    }
}

impl AtCoder<String> {
    /// The wrapped text itself.
    pub fn to_string(&self) -> (r: String)
        ensures
            r@ == self.0@,
    {
        String::from_str(self.0.as_str())
    }
}

impl<'a> AtCoder<&'a str> {
    /// The wrapped text itself.
    pub fn to_string(&self) -> (r: String)
        ensures
            r@ == self.0@,
    {
        String::from_str(self.0)
    }
}

/// Render a slice of numbers space-separated on one line.
pub fn join_ints_exec(v: &Vec<i64>) -> (r: String)
    ensures
        r@ == join_ints(v@),
{
    let mut s = String::new();
    let mut i: usize = 0;
    proof {
        assert(s@ =~= join_ints(v@.take(0)));
    }
    while i < v.len()
        invariant
            i <= v@.len(),
            s@ == join_ints(v@.take(i as int)),
        decreases v@.len() - i,
    {
        proof {
            reveal_strlit(" ");
        }
        if i > 0 {
            s.append(" ");
        }
        let piece = i128_string(v[i] as i128);
        s.append(piece.as_str());
        proof {
            assert(v@.take(i + 1).drop_last() =~= v@.take(i as int));
            assert(v@.take(i + 1).last() == v@[i as int]);
            assert(s@ =~= join_ints(v@.take(i + 1)));
        }
        i = i + 1;
    }
    proof {
        assert(v@.take(v@.len() as int) =~= v@);
    }
    s
}

impl AtCoder<Vec<i64>> {
    /// The numbers, space-separated on one line.
    pub fn to_string(&self) -> (r: String)
        ensures
            r@ == join_ints(self.0@),
    {
        join_ints_exec(&self.0)
    }
}

impl AtCoder<Vertical<i64>> {
    /// The numbers, one per line.
    pub fn to_string(&self) -> (r: String)
        ensures
            r@ == join_ints_lines(self.0.0@),
    {
        let mut s = String::new();
        let mut i: usize = 0;
        proof {
            assert(s@ =~= join_ints_lines(self.0.0@.take(0)));
        }
        while i < self.0.0.len()
            invariant
                i <= self.0.0@.len(),
                s@ == join_ints_lines(self.0.0@.take(i as int)),
            decreases self.0.0@.len() - i,
        {
            proof {
                reveal_strlit("\n");
            }
            if i > 0 {
                s.append("\n");
            }
            let piece = i128_string(self.0.0[i] as i128);
            s.append(piece.as_str());
            proof {
                assert(self.0.0@.take(i + 1).drop_last() =~= self.0.0@.take(i as int));
                assert(self.0.0@.take(i + 1).last() == self.0.0@[i as int]);
                assert(s@ =~= join_ints_lines(self.0.0@.take(i + 1)));
            }
            i = i + 1;
        }
        proof {
            assert(self.0.0@.take(self.0.0@.len() as int) =~= self.0.0@);
        }
        s
    }
}

/// The rendering of rows of numbers, each space-separated, joined by
/// newlines.
pub open spec fn join_rows(s: Seq<Seq<i64>>) -> Seq<char>
    decreases s.len(),
{
    if s.len() == 0 {
        Seq::empty()
    } else if s.len() == 1 {
        join_ints(s[0])
    } else {
        join_rows(s.drop_last()) + seq!['\n'] + join_ints(s.last())
    }
}

impl AtCoder<Mat<i64>> {
    /// The rows, space-separated within and newline-separated between.
    pub fn to_string(&self) -> (r: String)
        ensures
            r@ == join_rows(self.0.0@.map_values(|row: Vec<i64>| row@)),
    {
        let ghost rows = self.0.0@.map_values(|row: Vec<i64>| row@);
        let mut s = String::new();
        let mut i: usize = 0;
        proof {
            assert(s@ =~= join_rows(rows.take(0)));
        }
        while i < self.0.0.len()
            invariant
                i <= self.0.0@.len(),
                rows == self.0.0@.map_values(|row: Vec<i64>| row@),
                s@ == join_rows(rows.take(i as int)),
            decreases self.0.0@.len() - i,
        {
            proof {
                reveal_strlit("\n");
            }
            if i > 0 {
                s.append("\n");
            }
            proof {
                assert(self.0.0@[i as int]@ == rows[i as int]);
            }
            let piece = join_ints_exec(&self.0.0[i]);
            s.append(piece.as_str());
            proof {
                assert(rows.take(i + 1).drop_last() =~= rows.take(i as int));
                assert(rows.take(i + 1).last() == rows[i as int]);
                assert(s@ =~= join_rows(rows.take(i + 1)));
            }
            i = i + 1;
        }
        proof {
            assert(rows.take(rows.len() as int) =~= rows);
        }
        s
    }
}

impl AtCoder<char> {
    /// The single character.
    pub fn to_string(&self) -> (r: String)
        ensures
            r@ == seq![self.0],
    {
        let mut s = String::new();
        push_char(&mut s, self.0);
        proof {
            assert(s@ =~= seq![self.0]);
        }
        s
    }
}

/// The rows of characters joined by newlines, without separators inside
/// a row.
pub open spec fn join_char_rows(s: Seq<Seq<char>>) -> Seq<char>
    decreases s.len(),
{
    if s.len() == 0 {
        Seq::empty()
    } else if s.len() == 1 {
        s[0]
    } else {
        join_char_rows(s.drop_last()) + seq!['\n'] + s.last()
    }
}

impl AtCoder<Mat<char>> {
    /// The rows, characters abutting within and newline-separated
    /// between.
    pub fn to_string(&self) -> (r: String)
        ensures
            r@ == join_char_rows(self.0.0@.map_values(|row: Vec<char>| row@)),
    {
        let ghost rows = self.0.0@.map_values(|row: Vec<char>| row@);
        let mut s = String::new();
        let mut i: usize = 0;
        proof {
            assert(s@ =~= join_char_rows(rows.take(0)));
        }
        while i < self.0.0.len()
            invariant
                i <= self.0.0@.len(),
                rows == self.0.0@.map_values(|row: Vec<char>| row@),
                s@ == join_char_rows(rows.take(i as int)),
            decreases self.0.0@.len() - i,
        {
            proof {
                reveal_strlit("\n");
            }
            if i > 0 {
                s.append("\n");
            }
            let ghost rowstart = s@;
            let mut j: usize = 0;
            while j < self.0.0[i].len()
                invariant
                    i < self.0.0@.len(),
                    j <= self.0.0@[i as int]@.len(),
                    rows == self.0.0@.map_values(|row: Vec<char>| row@),
                    s@ == rowstart + self.0.0@[i as int]@.take(j as int),
                decreases self.0.0@[i as int]@.len() - j,
            {
                push_char(&mut s, self.0.0[i][j]);
                proof {
                    assert(s@ =~= rowstart + self.0.0@[i as int]@.take(j + 1));
                }
                j = j + 1;
            }
            proof {
                assert(self.0.0@[i as int]@.take(self.0.0@[i as int]@.len() as int)
                    =~= self.0.0@[i as int]@);
                assert(rows.take(i + 1).drop_last() =~= rows.take(i as int));
                assert(rows.take(i + 1).last() == rows[i as int]);
                assert(self.0.0@[i as int]@ == rows[i as int]);
                assert(s@ =~= join_char_rows(rows.take(i + 1)));
            }
            i = i + 1;
        }
        proof {
            assert(rows.take(rows.len() as int) =~= rows);
        }
        s
    }
}

impl AtCoder<Option<Vec<i64>>> {
    /// The numbers space-separated, or `-1` for nothing.
    pub fn to_string(&self) -> (r: String)
        ensures
            self.0 matches Some(v) ==> r@ == join_ints(v@),
            self.0 is None ==> r@ == int_spec(-1),
    {
        match &self.0 {
            Some(v) => join_ints_exec(v),
            None => i128_string(-1),
        }
    }
}

impl<'a> AtCoder<Result<Vec<i64>, &'a str>> {
    /// The numbers space-separated on success, or the error text.
    pub fn to_string(&self) -> (r: String)
        ensures
            self.0 matches Ok(v) ==> r@ == join_ints(v@),
            self.0 matches Err(e) ==> r@ == e@,
    {
        match &self.0 {
            Ok(v) => join_ints_exec(v),
            Err(e) => String::from_str(e),
        }
    }
}

impl AtCoder<Option<i64>> {
    /// The number, or `-1` for nothing.
    pub fn to_string(&self) -> (r: String)
        ensures
            self.0 matches Some(v) ==> r@ == int_spec(v as int),
            self.0 is None ==> r@ == int_spec(-1),
    {
        match self.0 {
            Some(v) => i128_string(v as i128),
            None => i128_string(-1),
        }
    }
}

} // verus!
