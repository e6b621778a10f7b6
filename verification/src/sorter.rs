//! Date-bucketed destinations and operation bookkeeping for sorting,
//! moving and deleting images.
//!
//! The destination of a sorted image is `YYYY/MM` under the target folder,
//! optionally with the month's name appended to its number and a day folder
//! below; a name collision at the destination is resolved by suffixing
//! `_N` before the extension.

use crate::hashing::hex_digit;
use crate::metadata::CaptureDate;
use vstd::prelude::*;
use vstd::string::StringExecFns;
use vstd::string::StrSliceExecFns;

verus! {

/// Tally of a bulk file operation.
#[derive(Debug)]
pub struct OperationResult {
    pub processed: usize,
    pub success: usize,
    pub errors: usize,
    pub error_messages: Vec<String>,
}

impl OperationResult {
    /// A fresh tally: nothing processed, nothing failed.
    pub fn new() -> (r: Self)
        ensures
            r.processed == 0,
            r.success == 0,
            r.errors == 0,
            r.error_messages@ == Seq::<String>::empty(),
    {
        let r = OperationResult { processed: 0, success: 0, errors: 0, error_messages: Vec::new() };
        proof {
            assert(r.error_messages@ =~= Seq::<String>::empty());
        }
        r
    }

    /// Counts one succeeded item.
    pub fn add_success(&mut self)
        requires
            old(self).success < usize::MAX,
        ensures
            final(self).success == old(self).success + 1,
            final(self).processed == old(self).processed,
            final(self).errors == old(self).errors,
            final(self).error_messages == old(self).error_messages,
    {
        self.success = self.success + 1;
    }

    /// Counts one failed item and keeps its message.
    pub fn add_error(&mut self, msg: String)
        requires
            old(self).errors < usize::MAX,
        ensures
            final(self).errors == old(self).errors + 1,
            final(self).error_messages@ == old(self).error_messages@.push(msg),
            final(self).processed == old(self).processed,
            final(self).success == old(self).success,
    {
        self.errors = self.errors + 1;
        self.error_messages.push(msg);
    }
}

/// How date folders are laid out.
#[derive(Debug, Clone)]
pub struct SortConfig {
    pub use_day_folder: bool,
    pub use_month_names: bool,
}

/// The decimal digits of a non-negative number, most significant first.
pub open spec fn dec_chars(n: int) -> Seq<char>
    decreases n,
{
    if n <= 9 {
        seq![hex_digit(n)]
    } else {
        dec_chars(n / 10) + seq![hex_digit(n % 10)]
    }
}

/// A number padded to two digits with a leading zero.
pub open spec fn pad2_chars(n: int) -> Seq<char> {
    if n <= 9 {
        seq!['0'] + dec_chars(n)
    } else {
        dec_chars(n)
    }
}

fn digit_str(d: u32) -> (r: &'static str)
    requires
        d <= 9,
    ensures
        r@ == seq![hex_digit(d as int)],
{
    proof {
        reveal_strlit("0");
        reveal_strlit("1");
        reveal_strlit("2");
        reveal_strlit("3");
        reveal_strlit("4");
        reveal_strlit("5");
        reveal_strlit("6");
        reveal_strlit("7");
        reveal_strlit("8");
        reveal_strlit("9");
    }
    let r = if d == 0 {
        "0"
    } else if d == 1 {
        "1"
    } else if d == 2 {
        "2"
    } else if d == 3 {
        "3"
    } else if d == 4 {
        "4"
    } else if d == 5 {
        "5"
    } else if d == 6 {
        "6"
    } else if d == 7 {
        "7"
    } else if d == 8 {
        "8"
    } else {
        "9"
    };
    proof {
        assert(r@ =~= seq![hex_digit(d as int)]);
    }
    r
}

/// Writes a number in decimal.
pub fn dec_string(n: u32) -> (r: String)
    ensures
        r@ == dec_chars(n as int),
    decreases n,
{
    if n <= 9 {
        String::from_str(digit_str(n))
    } else {
        let mut r = dec_string(n / 10);
        r.append(digit_str(n % 10));
        proof {
            assert(n as int / 10 == (n / 10) as int);
            assert(n as int % 10 == (n % 10) as int);
        }
        r
    }
}

/// Writes a number in decimal, padded to two digits.
pub fn pad2_string(n: u32) -> (r: String)
    ensures
        r@ == pad2_chars(n as int),
{
    if n <= 9 {
        let mut r = String::from_str("0");
        proof {
            reveal_strlit("0");
            assert("0"@ =~= seq!['0']);
        }
        r.append(digit_str(n));
        r
    } else {
        dec_string(n)
    }
}

/// The Norwegian name of a month.
pub open spec fn month_name(m: int) -> Seq<char> {
    if m == 1 {
        "Januar"@
    } else if m == 2 {
        "Februar"@
    } else if m == 3 {
        "Mars"@
    } else if m == 4 {
        "April"@
    } else if m == 5 {
        "Mai"@
    } else if m == 6 {
        "Juni"@
    } else if m == 7 {
        "Juli"@
    } else if m == 8 {
        "August"@
    } else if m == 9 {
        "September"@
    } else if m == 10 {
        "Oktober"@
    } else if m == 11 {
        "November"@
    } else {
        "Desember"@
    }
}

fn month_name_exec(m: u32) -> (r: &'static str)
    requires
        1 <= m <= 12,
    ensures
        r@ == month_name(m as int),
{
    if m == 1 {
        "Januar"
    } else if m == 2 {
        "Februar"
    } else if m == 3 {
        "Mars"
    } else if m == 4 {
        "April"
    } else if m == 5 {
        "Mai"
    } else if m == 6 {
        "Juni"
    } else if m == 7 {
        "Juli"
    } else if m == 8 {
        "August"
    } else if m == 9 {
        "September"
    } else if m == 10 {
        "Oktober"
    } else if m == 11 {
        "November"
    } else {
        "Desember"
    }
}

/// The folder a month maps to: its two-digit number, with the month's name
/// appended when names are asked for.
pub open spec fn month_folder_chars(m: int, use_month_names: bool) -> Seq<char> {
    if use_month_names {
        pad2_chars(m) + " - "@ + month_name(m)
    } else {
        pad2_chars(m)
    }
}

/// The date-bucketed path of an image below the target folder:
/// `YYYY/MM[ - name][/DD]`.
pub open spec fn destination_subpath_chars(date: CaptureDate, config: SortConfig) -> Seq<char> {
    dec_chars(date.year as int) + "/"@ + month_folder_chars(date.month as int, config.use_month_names)
        + if config.use_day_folder {
        "/"@ + pad2_chars(date.day as int)
    } else {
        Seq::empty()
    }
}

/// Builds the date-bucketed path of an image below the target folder:
/// year, month — numbered, optionally named — and, when asked for, day.
pub fn destination_subpath(date: &CaptureDate, config: &SortConfig) -> (r: String)
    requires
        1 <= date.month <= 12,
    ensures
        r@ == destination_subpath_chars(*date, *config),
{
    let mut r = dec_string(date.year);
    r.append("/");
    let month2 = pad2_string(date.month);
    r.append(month2.as_str());
    if config.use_month_names {
        r.append(" - ");
        r.append(month_name_exec(date.month));
    }
    if config.use_day_folder {
        r.append("/");
        let day2 = pad2_string(date.day);
        r.append(day2.as_str());
    }
    proof {
        assert(r@ =~= destination_subpath_chars(*date, *config));
    }
    r
}

/// The collision-resolving name: `stem_N`, keeping the extension when
/// there is one.
pub open spec fn renamed_filename_chars(stem: Seq<char>, ext: Seq<char>, counter: int) -> Seq<
    char,
> {
    if ext.len() == 0 {
        stem + "_"@ + dec_chars(counter)
    } else {
        stem + "_"@ + dec_chars(counter) + "."@ + ext
    }
}

/// Renames a file to resolve a destination collision: `_N` goes before the
/// extension, or at the end of an extensionless name.
pub fn renamed_filename(stem: &str, ext: &str, counter: u32) -> (r: String)
    ensures
        r@ == renamed_filename_chars(stem@, ext@, counter as int),
{
    let mut r = String::from_str(stem);
    r.append("_");
    let num = dec_string(counter);
    r.append(num.as_str());
    if ext.unicode_len() > 0 {
        r.append(".");
        r.append(ext);
    }
    proof {
        assert(r@ =~= renamed_filename_chars(stem@, ext@, counter as int));
    }
    r
}

} // verus!
