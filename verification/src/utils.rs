use vstd::prelude::*;
use vstd::utf8::encode_utf8;
use crate::dataset::{max_dist, Matrix};

verus! {

/// The width a string takes up when printed: its length in bytes (what
/// `str::len` reports).
pub open spec fn display_width(s: Seq<char>) -> usize {
    encode_utf8(s).len() as usize
}

/// `w` is the width of the widest label.
pub open spec fn is_max_display_width(labels: Seq<String>, w: usize) -> bool {
    &&& exists|i: int| 0 <= i < labels.len() && w == display_width((#[trigger] labels[i])@)
    &&& forall|i: int| 0 <= i < labels.len() ==> display_width((#[trigger] labels[i])@) <= w
}

/// The maximum display width of the strings of a vector.
pub fn get_max_display_width(arr: &Vec<String>) -> (w: usize)
    requires
        arr@.len() >= 1,
    ensures
        is_max_display_width(arr@, w),
{
    let mut w: usize = arr[0].as_str().len();
    let mut i: usize = 1;
    while i < arr.len()
        invariant
            1 <= i <= arr@.len(),
            exists|k: int| 0 <= k < i && w == display_width((#[trigger] arr@[k])@),
            forall|k: int| 0 <= k < i ==> display_width((#[trigger] arr@[k])@) <= w,
        decreases arr@.len() - i,
    {
        let cur = arr[i].as_str().len();
        if cur > w {
            w = cur;
        }
        i = i + 1;
    }
    w
}

/// What thousands-grouping renders a number as; only the trusted rendering
/// below says anything about it.
pub uninterp spec fn grouped_decimal(n: u64) -> Seq<char>;

/// Relies on thousands::Separable::separate_by_policy on a `u64`: renders the
/// decimal digits of `n` grouped in threes by an apostrophe. The result is a
/// function of `n` alone.
#[verifier::external_body]
fn thousands_u64(n: u64) -> (r: String)
    ensures
        r@ == grouped_decimal(n),
{
    thousands::Separable::separate_by_policy(
        &n,
        thousands::SeparatorPolicy {
            separator: "'",
            groups: &[3],
            digits: thousands::digits::ASCII_DECIMAL,
        },
    )
}

/// What comma-grouping renders a number as; only the trusted rendering
/// below says anything about it.
pub uninterp spec fn comma_grouped(n: u64) -> Seq<char>;

/// Relies on thousands::Separable::separate_with_commas on a `u64`: renders
/// the decimal digits of `n` grouped in threes by a comma. The result is a
/// function of `n` alone.
#[verifier::external_body]
fn commas_u64(n: u64) -> (r: String)
    ensures
        r@ == comma_grouped(n),
{
    thousands::Separable::separate_with_commas(&n)
}

/// The printed width of `n` under comma-grouping.
pub open spec fn comma_width(n: u64) -> usize {
    display_width(comma_grouped(n))
}

/// Renders `n` with comma-grouping and measures it.
pub fn comma_display_len(n: u64) -> (w: usize)
    ensures
        w == comma_width(n),
{
    let s = commas_u64(n);
    s.as_str().len()
}

/// The printed width of `n` under thousands-grouping.
pub open spec fn grouped_width(n: u64) -> usize {
    display_width(grouped_decimal(n))
}

/// Renders `n` with thousands-grouping and measures it.
pub fn grouped_display_len(n: u64) -> (w: usize)
    ensures
        w == grouped_width(n),
{
    let s = thousands_u64(n);
    s.as_str().len()
}

/// The width of the largest matrix entry under thousands-grouping.
pub fn get_max_display_width_thousands_2d(matrix: &Matrix) -> (w: usize)
    requires
        matrix.wf_data(),
        1 <= matrix.spec_len(),
    ensures
        w == grouped_width(max_dist(matrix) as u64),
{
    let m = matrix.max();
    grouped_display_len(m)
}

/// Numbers that know how to render themselves with thousands-grouping.
pub trait ThousandsDisplayPolicy {
    fn thousands(&self) -> String;
}

impl ThousandsDisplayPolicy for u64 {
    fn thousands(&self) -> String {
        thousands_u64(*self)
    }
}

impl ThousandsDisplayPolicy for usize {
    fn thousands(&self) -> String {
        thousands_u64(*self as u64)
    }
}

} // verus!
