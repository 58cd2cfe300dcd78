//! Table display configuration and layout.
//!
//! The formatted table is printed column by column; how many columns fit
//! is decided by the terminal width against the cumulative width of the
//! header cells behind the six-column line-number gutter.

use vstd::prelude::*;

verus! {

/// Configuration of a displayed table.
pub struct TableConfig {
    pub std_color: [u8; 3],
    pub neg_num_color: [u8; 3],
    pub na_color: [u8; 3],
    pub meta_color: [u8; 3],
    pub header_color: [u8; 3],
    pub title_option: String,
    pub footer_option: String,
    pub display_meta: bool,
    pub extend_option: bool,
    pub line_counter: bool,
    pub debug_mode: bool,
    pub is_tty: bool,
    pub is_force_color: bool,
    pub term_tuple: (u16, u16),
    pub sigfig: i64,
    pub lower_column_width: usize,
    pub upper_column_width: usize,
    pub row_display_option: usize,
}

impl TableConfig {
    /// The default configuration, given whether the output is a terminal
    /// and its size.
    pub fn new(is_tty: bool, term_tuple: (u16, u16)) -> (r: TableConfig)
        ensures
            r.std_color@ == seq![216u8, 222u8, 233u8],
            r.neg_num_color@ == seq![208u8, 135u8, 112u8],
            r.na_color@ == seq![191u8, 97u8, 106u8],
            r.meta_color@ == seq![143u8, 188u8, 187u8],
            r.header_color@ == seq![94u8, 129u8, 172u8],
            r.title_option@ == Seq::<char>::empty(),
            r.footer_option@ == Seq::<char>::empty(),
            !r.display_meta,
            r.extend_option,
            !r.line_counter,
            !r.debug_mode,
            r.is_tty == is_tty,
            !r.is_force_color,
            r.term_tuple == term_tuple,
            r.sigfig == 3,
            r.lower_column_width == 2,
            r.upper_column_width == 50,
            r.row_display_option == 25,
    {
        let r = TableConfig {
            std_color: [216, 222, 233],
            neg_num_color: [208, 135, 112],
            na_color: [191, 97, 106],
            meta_color: [143, 188, 187],
            header_color: [94, 129, 172],
            title_option: String::new(),
            footer_option: String::new(),
            display_meta: false,
            extend_option: true,
            line_counter: false,
            debug_mode: false,
            is_tty,
            is_force_color: false,
            term_tuple,
            sigfig: 3,
            lower_column_width: 2,
            upper_column_width: 50,
            row_display_option: 25,
        };
        proof {
            assert(r.std_color@ =~= seq![216u8, 222u8, 233u8]);
            assert(r.neg_num_color@ =~= seq![208u8, 135u8, 112u8]);
            assert(r.na_color@ =~= seq![191u8, 97u8, 106u8]);
            assert(r.meta_color@ =~= seq![143u8, 188u8, 187u8]);
            assert(r.header_color@ =~= seq![94u8, 129u8, 172u8]);
        }
        r
    }
}

/// The width of the gutter plus the first `k` header cells.
pub open spec fn prefix_width(row: Seq<String>, k: int) -> int
    decreases k,
{
    if k <= 0 {
        6
    } else {
        prefix_width(row, k - 1) + row[k - 1]@.len()
    }
}

/// How many leading columns fit in the terminal: the largest count whose
/// cumulative header width, behind the gutter, stays within the width.
#[verifier::loop_isolation(false)]
pub fn get_num_cols_to_print(cols: usize, vp: Vec<Vec<String>>, term_tuple: (u16, u16)) -> (r:
    usize)
    requires
        vp@.len() >= 1,
        cols <= vp@[0]@.len(),
    ensures
        r <= cols,
        r == 0 || prefix_width(vp@[0]@, r as int) <= term_tuple.0 as int,
        r < cols ==> prefix_width(vp@[0]@, r + 1) > term_tuple.0 as int,
{
    let ghost row = vp@[0]@;
    let term_width = term_tuple.0 as u128;
    let mut total: u128 = 6;
    let mut last: usize = 0;
    let mut col: usize = 0;
    while col < cols
        invariant
            0 <= col <= cols,
            last == col,
            total as int == prefix_width(row, col as int),
            col == 0 || prefix_width(row, col as int) <= term_tuple.0 as int,
            total <= 6 + term_width,
        decreases cols - col,
    {
        let text_len = vp[0][col].as_str().unicode_len();
        let t2 = total + (text_len as u128);
        if t2 > term_width {
            return last;
        }
        total = t2;
        last = col + 1;
        col = col + 1;
    }
    last
}

} // verus!
