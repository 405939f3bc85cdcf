//! Output assembly for whole answers: values that render themselves as
//! the exact text to print, including matrices and `Yes`/`No` flags.

use crate::display::{int_spec, join_ints};
use vstd::prelude::*;
use vstd::string::StringExecFns;

verus! {

use crate::display::push_char;

/// Values that render themselves as output text.
pub trait Echo {
    /// The rendered text.
    fn echo(&self) -> String;
}

impl Echo for i64 {
    /// The number in decimal.
    fn echo(&self) -> (r: String)
        ensures
            r@ == int_spec(*self as int),
    {
        crate::display::i128_string(*self as i128)
    }
}

impl Echo for Vec<i64> {
    /// The numbers, space-separated.
    fn echo(&self) -> (r: String)
        ensures
            r@ == join_ints(self@),
    {
        crate::display::join_ints_exec(self)
    }
}

impl Echo for (i64, i64) {
    /// The pair, space-separated.
    fn echo(&self) -> (r: String)
        ensures
            r@ == int_spec(self.0 as int) + seq![' '] + int_spec(self.1 as int),
    {
        let mut s = crate::display::i128_string(self.0 as i128);
        proof {
            reveal_strlit(" ");
        }
        s.append(" ");
        let second = crate::display::i128_string(self.1 as i128);
        s.append(second.as_str());
        proof {
            assert(s@ =~= int_spec(self.0 as int) + seq![' '] + int_spec(self.1 as int));
        }
        s
    }
}

impl Echo for (i64, i64, i64) {
    /// The triple, space-separated.
    fn echo(&self) -> (r: String)
        ensures
            r@ == int_spec(self.0 as int) + seq![' '] + int_spec(self.1 as int) + seq![' ']
                + int_spec(self.2 as int),
    {
        let mut s = (self.0, self.1).echo();
        proof {
            reveal_strlit(" ");
        }
        s.append(" ");
        let third = crate::display::i128_string(self.2 as i128);
        s.append(third.as_str());
        proof {
            assert(s@ =~= int_spec(self.0 as int) + seq![' '] + int_spec(self.1 as int)
                + seq![' '] + int_spec(self.2 as int));
        }
        s
    }
}

/// A matrix of numbers to print as one row per line.
pub struct Mat<T>(pub Vec<Vec<T>>);

/// The rows rendered space-separated, joined by newlines.
pub open spec fn echo_rows(s: Seq<Seq<i64>>) -> Seq<char>
    decreases s.len(),
{
    if s.len() == 0 {
        Seq::empty()
    } else if s.len() == 1 {
        join_ints(s[0])
    } else {
        echo_rows(s.drop_last()) + seq!['\n'] + join_ints(s.last())
    }
}

impl Echo for Mat<i64> {
    /// One row per line, space-separated within a row.
    fn echo(&self) -> (r: String)
        ensures
            r@ == echo_rows(self.0@.map_values(|row: Vec<i64>| row@)),
    {
        let ghost rows = self.0@.map_values(|row: Vec<i64>| row@);
        let mut s = String::new();
        let mut i: usize = 0;
        proof {
            assert(s@ =~= echo_rows(rows.take(0)));
        }
        while i < self.0.len()
            invariant
                i <= self.0@.len(),
                rows == self.0@.map_values(|row: Vec<i64>| row@),
                s@ == echo_rows(rows.take(i as int)),
            decreases self.0@.len() - i,
        {
            proof {
                reveal_strlit("\n");
            }
            if i > 0 {
                s.append("\n");
            }
            let piece = crate::display::join_ints_exec(&self.0[i]);
            s.append(piece.as_str());
            proof {
                assert(rows.take(i + 1).drop_last() =~= rows.take(i as int));
                assert(rows.take(i + 1).last() == rows[i as int]);
                assert(self.0@[i as int]@ == rows[i as int]);
                assert(s@ =~= echo_rows(rows.take(i + 1)));
            }
            i = i + 1;
        }
        proof {
            assert(rows.take(rows.len() as int) =~= rows);
        }
        s
    }
}

/// A matrix of characters to print as one row per line, without
/// separators inside a row.
pub struct MatS(pub Vec<Vec<char>>);

/// The rows of characters joined by newlines.
pub open spec fn echo_char_rows(s: Seq<Seq<char>>) -> Seq<char>
    decreases s.len(),
{
    if s.len() == 0 {
        Seq::empty()
    } else if s.len() == 1 {
        s[0]
    } else {
        echo_char_rows(s.drop_last()) + seq!['\n'] + s.last()
    }
}

impl Echo for MatS {
    /// One row per line, characters abutting.
    fn echo(&self) -> (r: String)
        ensures
            r@ == echo_char_rows(self.0@.map_values(|row: Vec<char>| row@)),
    {
        let ghost rows = self.0@.map_values(|row: Vec<char>| row@);
        let mut s = String::new();
        let mut i: usize = 0;
        proof {
            assert(s@ =~= echo_char_rows(rows.take(0)));
        }
        while i < self.0.len()
            invariant
                i <= self.0@.len(),
                rows == self.0@.map_values(|row: Vec<char>| row@),
                s@ == echo_char_rows(rows.take(i as int)),
            decreases self.0@.len() - i,
        {
            proof {
                reveal_strlit("\n");
            }
            if i > 0 {
                s.append("\n");
            }
            let ghost rowstart = s@;
            let mut j: usize = 0;
            while j < self.0[i].len()
                invariant
                    i < self.0@.len(),
                    j <= self.0@[i as int]@.len(),
                    rows == self.0@.map_values(|row: Vec<char>| row@),
                    s@ == rowstart + self.0@[i as int]@.take(j as int),
                decreases self.0@[i as int]@.len() - j,
            {
                push_char(&mut s, self.0[i][j]);
                proof {
                    assert(s@ =~= rowstart + self.0@[i as int]@.take(j + 1));
                }
                j = j + 1;
            }
            proof {
                assert(self.0@[i as int]@.take(self.0@[i as int]@.len() as int) =~= self.0@[
                i as int]@);
                assert(rows.take(i + 1).drop_last() =~= rows.take(i as int));
                assert(rows.take(i + 1).last() == rows[i as int]);
                assert(self.0@[i as int]@ == rows[i as int]);
                assert(s@ =~= echo_char_rows(rows.take(i + 1)));
            }
            i = i + 1;
        }
        proof {
            assert(rows.take(rows.len() as int) =~= rows);
        }
        s
    }
}

/// A boolean with the two texts it prints as.
pub struct Bool<'a> {
    value: bool,
    t: &'a str,
    f: &'a str,
}

/// `Yes` or `No` for a boolean.
pub fn yn(value: bool) -> (r: Bool<'static>)
    ensures
        r.spec_value() == value,
        r.spec_t()@ == "Yes"@,
        r.spec_f()@ == "No"@,
{
    Bool { value, t: "Yes", f: "No" }
}

/// A boolean with custom texts for the two cases.
pub fn tf<'a>(value: bool, t: &'a str, f: &'a str) -> (r: Bool<'a>)
    ensures
        r.spec_value() == value,
        r.spec_t() == t,
        r.spec_f() == f,
{
    Bool { value, t, f }
}

impl<'a> Bool<'a> {
    /// The wrapped truth value.
    pub closed spec fn spec_value(&self) -> bool {
        self.value
    }

    /// The text printed when true.
    pub closed spec fn spec_t(&self) -> &'a str {
        self.t
    }

    /// The text printed when false.
    pub closed spec fn spec_f(&self) -> &'a str {
        self.f
    }
}

impl<'a> Echo for Bool<'a> {
    /// The text chosen by the wrapped value.
    fn echo(&self) -> (r: String)
        ensures
            self.spec_value() ==> r@ == self.spec_t()@,
            !self.spec_value() ==> r@ == self.spec_f()@,
    {
        if self.value {
            String::from_str(self.t)
        } else {
            String::from_str(self.f)
        }
    }
}

} // verus!
