//! The grid viewer: scrollable viewport state, column-fit computation,
//! row layout, and the renderer that turns bytes into cell placements.

use vstd::prelude::*;

use crate::utils::{is_pow2, previous_power_of_two, spec_prev_pow2};
use crate::viewer::codec::{
    dec_seq, element_count, decode_element, format_element, hex_pad_seq, spec_decode,
    spec_format_element, u128_hex_pad, u64_dec,
};
use crate::viewer::common_dt::{DataType, DisplayType, Endianness};

verus! {

/// Scroll state of the viewer: the first visible virtual row and column,
/// the extents measured at the last redraw, and the virtual row count.
/// `set_cols` pins the column count instead of letting it auto-fit; only
/// then is there anything to scroll horizontally.
#[derive(Clone, Copy, Debug, PartialEq, Eq, Structural)]
pub struct FileViewerState {
    pub row_offset: usize,
    pub col_offset: usize,
    pub cols: usize,
    pub rows: usize,
    pub total_rows: usize,
    pub set_cols: Option<usize>,
}

impl FileViewerState {
    /// The viewport never points past the scrollable range: the row offset
    /// stays within `[0, total_rows - rows]` (and is zero when everything
    /// fits), the column offset likewise against the pinned column count,
    /// and the measured extents fit a terminal dimension.
    pub open spec fn inv(self) -> bool {
        &&& self.rows <= 0xFFFD
        &&& self.cols <= 0xFFFF
        &&& (self.total_rows > self.rows ==> self.row_offset <= self.total_rows - self.rows)
        &&& (self.total_rows <= self.rows ==> self.row_offset == 0)
        &&& (match self.set_cols {
            Some(c) => {
                &&& (c > self.cols ==> self.col_offset <= c - self.cols)
                &&& (c <= self.cols ==> self.col_offset == 0)
            },
            None => self.col_offset == 0,
        })
    }

    /// Shift one row down, clamped to the scrollable range.
    pub open spec fn spec_move_down(self) -> Self {
        if self.total_rows > self.rows && self.row_offset < self.total_rows - self.rows {
            Self { row_offset: (self.row_offset + 1) as usize, ..self }
        } else {
            self
        }
    }

    /// Shift one row up, stopping at the top.
    pub open spec fn spec_move_up(self) -> Self {
        if self.row_offset > 0 {
            Self { row_offset: (self.row_offset - 1) as usize, ..self }
        } else {
            self
        }
    }

    /// Shift one column right, clamped against the pinned column count;
    /// without a pinned count there is no horizontal scrolling.
    pub open spec fn spec_move_right(self) -> Self {
        match self.set_cols {
            Some(c) => {
                if c > self.cols && self.col_offset < c - self.cols {
                    Self { col_offset: (self.col_offset + 1) as usize, ..self }
                } else {
                    self
                }
            },
            None => self,
        }
    }

    /// Shift one column left, stopping at the start of the row.
    pub open spec fn spec_move_left(self) -> Self {
        match self.set_cols {
            Some(_) => {
                if self.col_offset > 0 {
                    Self { col_offset: (self.col_offset - 1) as usize, ..self }
                } else {
                    self
                }
            },
            None => self,
        }
    }

    /// Jump to the first row.
    pub open spec fn spec_goto_top(self) -> Self {
        Self { row_offset: 0, ..self }
    }

    /// Jump to the last visible page.
    pub open spec fn spec_goto_bottom(self) -> Self {
        if self.total_rows > self.rows {
            Self { row_offset: (self.total_rows - self.rows) as usize, ..self }
        } else {
            self
        }
    }

    /// Jump to the first column.
    pub open spec fn spec_goto_start(self) -> Self {
        Self { col_offset: 0, ..self }
    }

    /// Jump to the last visible column page.
    pub open spec fn spec_goto_end(self) -> Self {
        match self.set_cols {
            Some(c) => {
                if c > self.cols {
                    Self { col_offset: (c - self.cols) as usize, ..self }
                } else {
                    self
                }
            },
            None => self,
        }
    }

    /// Move half a page down, snapping to the end when the half page
    /// would overshoot: the new offset is the smaller of `row_offset +
    /// rows / 2` and the last page's offset.  A no-op when everything
    /// fits on one page.
    pub open spec fn spec_scroll_down(self) -> Self {
        if self.total_rows > self.rows {
            let target = self.row_offset + self.rows / 2;
            let bound = self.total_rows - self.rows;
            Self {
                row_offset: (if target < bound {
                    target
                } else {
                    bound
                }) as usize,
                ..self
            }
        } else {
            self
        }
    }

    /// Move half a page up, snapping to the start when the half page would
    /// overshoot.
    pub open spec fn spec_scroll_up(self) -> Self {
        if self.row_offset > self.rows / 2 {
            Self { row_offset: (self.row_offset - self.rows / 2) as usize, ..self }
        } else {
            Self { row_offset: 0, ..self }
        }
    }

    pub fn move_down(&mut self)
        requires
            old(self).inv(),
        ensures
            *final(self) == old(self).spec_move_down(),
            final(self).inv(),
    {
        if self.total_rows > self.rows {
            if self.row_offset < self.total_rows - self.rows {
                self.row_offset = self.row_offset + 1;
            }
        }
    }

    pub fn move_up(&mut self)
        requires
            old(self).inv(),
        ensures
            *final(self) == old(self).spec_move_up(),
            final(self).inv(),
    {
        if self.row_offset > 0 {
            self.row_offset = self.row_offset - 1;
        }
    }

    pub fn move_right(&mut self)
        requires
            old(self).inv(),
        ensures
            *final(self) == old(self).spec_move_right(),
            final(self).inv(),
    {
        match self.set_cols {
            Some(col) => {
                if col > self.cols {
                    if self.col_offset < col - self.cols {
                        self.col_offset = self.col_offset + 1;
                    }
                }
            },
            None => {},
        }
    }

    pub fn move_left(&mut self)
        requires
            old(self).inv(),
        ensures
            *final(self) == old(self).spec_move_left(),
            final(self).inv(),
    {
        match self.set_cols {
            Some(_) => {
                if self.col_offset > 0 {
                    self.col_offset = self.col_offset - 1;
                }
            },
            None => {},
        }
    }

    pub fn goto_top(&mut self)
        requires
            old(self).inv(),
        ensures
            *final(self) == old(self).spec_goto_top(),
            final(self).inv(),
    {
        self.row_offset = 0;
    }

    pub fn goto_bottom(&mut self)
        requires
            old(self).inv(),
        ensures
            *final(self) == old(self).spec_goto_bottom(),
            final(self).inv(),
    {
        if self.total_rows > self.rows {
            self.row_offset = self.total_rows - self.rows;
        }
    }

    pub fn goto_start(&mut self)
        requires
            old(self).inv(),
        ensures
            *final(self) == old(self).spec_goto_start(),
            final(self).inv(),
    {
        self.col_offset = 0;
    }

    pub fn goto_end(&mut self)
        requires
            old(self).inv(),
        ensures
            *final(self) == old(self).spec_goto_end(),
            final(self).inv(),
    {
        match self.set_cols {
            Some(col) => {
                if col > self.cols {
                    self.col_offset = col - self.cols;
                }
            },
            None => {},
        }
    }

    pub fn scroll_down(&mut self)
        requires
            old(self).inv(),
        ensures
            *final(self) == old(self).spec_scroll_down(),
            final(self).inv(),
    {
        if self.total_rows > self.rows {
            let bound = self.total_rows - self.rows;
            let half = self.rows / 2;
            if bound - self.row_offset > half {
                self.row_offset = self.row_offset + half;
            } else {
                self.row_offset = bound;
            }
        }
    }

    pub fn scroll_up(&mut self)
        requires
            old(self).inv(),
        ensures
            *final(self) == old(self).spec_scroll_up(),
            final(self).inv(),
    {
        if self.row_offset > self.rows / 2 {
            self.row_offset = self.row_offset - self.rows / 2;
        } else {
            self.row_offset = 0;
        }
    }
}

impl Default for FileViewerState {
    /// A fresh viewport sits at the origin with nothing measured yet.
    fn default() -> (r: Self)
        ensures
            r == (FileViewerState {
                row_offset: 0,
                col_offset: 0,
                cols: 0,
                rows: 0,
                total_rows: 0,
                set_cols: None,
            }),
            r.inv(),
    {
        FileViewerState { row_offset: 0, col_offset: 0, cols: 0, rows: 0, total_rows: 0, set_cols: None }
    }
}

/// Once the viewport sits on its last page, another step down stays there:
/// `goto_bottom` followed by `move_down` leaves the state unchanged.
pub proof fn lemma_goto_bottom_then_move_down(st: FileViewerState)
    requires
        st.inv(),
    ensures
        st.spec_goto_bottom().spec_move_down() == st.spec_goto_bottom(),
{
}

// ---------------------------------------------------------------------------
// Geometry
// ---------------------------------------------------------------------------

/// A rectangular region of the terminal area.
#[derive(Clone, Copy, Debug, PartialEq, Eq, Structural)]
pub struct Region {
    pub x: u16,
    pub y: u16,
    pub width: u16,
    pub height: u16,
}

/// One cell the painter must fill: where, what text, and whether it is
/// header chrome (the address column and the column index row) rather
/// than data.
#[derive(Debug)]
pub struct Placement {
    pub region: Region,
    pub text: String,
    pub header: bool,
}

/// The viewer proper: the active type, base and byte order, and the
/// buffer under view.
#[derive(Debug)]
pub struct FileViewer {
    pub data_type: DataType,
    pub display_type: DisplayType,
    pub endianness: Endianness,
    pub content: Vec<u8>,
}

impl Default for FileViewer {
    /// A fresh viewer shows an empty buffer as little-endian decimal
    /// unsigned bytes.
    fn default() -> (r: Self)
        ensures
            r.data_type == DataType::U8,
            r.display_type == DisplayType::Decimal,
            r.endianness == Endianness::Little,
            r.content@ == Seq::<u8>::empty(),
    {
        let r = FileViewer {
            data_type: DataType::U8,
            display_type: DisplayType::Decimal,
            endianness: Endianness::Little,
            content: Vec::new(),
        };
        proof {
            assert(r.content@ =~= Seq::<u8>::empty());
        }
        r
    }
}

impl FileViewer {
    pub fn set_content(&mut self, content: Vec<u8>)
        ensures
            *final(self) == (FileViewer { content, ..*old(self) }),
    {
        self.content = content;
    }

    pub fn set_display_type(&mut self, display_type: DisplayType)
        ensures
            *final(self) == (FileViewer { display_type, ..*old(self) }),
    {
        self.display_type = display_type;
    }

    pub fn set_data_type(&mut self, data_type: DataType)
        ensures
            *final(self) == (FileViewer { data_type, ..*old(self) }),
    {
        self.data_type = data_type;
    }

    pub fn set_endianness(&mut self, endianness: Endianness)
        ensures
            *final(self) == (FileViewer { endianness, ..*old(self) }),
    {
        self.endianness = endianness;
    }
}

// ---------------------------------------------------------------------------
// Column fitting
// ---------------------------------------------------------------------------

/// The full width one data column occupies: the type's display width plus
/// the two-character base suffix and one spacing unit.
pub open spec fn spec_data_width(dt: DataType, disp: DisplayType) -> nat {
    dt.spec_display_width(disp) + 3
}

/// How many data columns fit: the raw fit of the width left of the
/// address column (12 characters plus a 2-character margin), rounded down
/// to a power of two so row addresses stay binary-aligned; zero when not
/// even one column fits.
pub open spec fn spec_calc_cols(dt: DataType, disp: DisplayType, width: nat) -> nat {
    if width < 14 {
        0
    } else {
        spec_prev_pow2((((width - 14) as nat) / spec_data_width(dt, disp)) as int) as nat
    }
}

impl FileViewer {
    /// Fit columns of the active type into `area`, returning the column
    /// count, the full column width, and the element byte width.  The
    /// count is zero or a power of two, and the used width never exceeds
    /// what is left of the area after the address column.
    pub fn calc_cols(&self, area: &Region) -> (r: (u16, u16, u8))
        ensures
            r.0 as nat == spec_calc_cols(self.data_type, self.display_type, area.width as nat),
            r.1 as nat == spec_data_width(self.data_type, self.display_type),
            r.2 as nat == self.data_type.spec_byte_width(),
            r.0 == 0 || is_pow2(r.0 as int),
            14 + (r.0 as nat) * (r.1 as nat) <= if area.width >= 14 {
                area.width as nat
            } else {
                14
            },
    {
        let data_width = self.data_type.display_width(&self.display_type) + 3;
        let data_size = self.data_type.byte_width();
        if area.width < 14 {
            proof {
                assert((0 as nat) * (data_width as nat) == 0) by (nonlinear_arith);
            }
            return (0, data_width, data_size);
        }
        let raw = (area.width - 14) / data_width;
        let cols = previous_power_of_two(raw);
        proof {
            vstd::arithmetic::div_mod::lemma_fundamental_div_mod(
                (area.width - 14) as int,
                data_width as int,
            );
            assert((raw as nat) * (data_width as nat) <= (area.width - 14) as nat)
                by (nonlinear_arith)
                requires
                    area.width as int - 14 == (data_width as int) * (raw as int) + (area.width
                        - 14) as int % (data_width as int),
                    (area.width - 14) as int % (data_width as int) >= 0,
            ;
            if raw > 0 {
                assert((cols as nat) * (data_width as nat) <= (raw as nat) * (data_width as nat))
                    by (nonlinear_arith)
                    requires
                        cols <= raw,
                ;
            } else {
                assert((cols as nat) * (data_width as nat) == 0) by (nonlinear_arith)
                    requires
                        cols == 0,
                ;
            }
        }
        (cols, data_width, data_size)
    }
}

// ---------------------------------------------------------------------------
// Row layout
// ---------------------------------------------------------------------------

/// The gap placed between and around the columns of one row: the width
/// left after the address column (12), its margin (1), the data columns
/// and the right border (1), split evenly into `cols + 1` gaps.
pub open spec fn spec_solver_spacing(width: nat, cols: nat, ds: nat) -> nat {
    ((width - (13 + cols * ds)) as nat) / (cols + 1)
}

/// The odd remainder of the split becomes a centering margin before the
/// address column.
pub open spec fn spec_solver_front(width: nat, cols: nat, ds: nat) -> nat {
    (((width - (13 + cols * ds)) as nat) - (cols + 1) * spec_solver_spacing(width, cols, ds))
        as nat / 2
}

/// The x position of region `i` of a row: the address column first, then
/// each data column, then the right border.
pub open spec fn spec_region_x(area: Region, cols: nat, ds: nat, i: int) -> nat {
    let sp = spec_solver_spacing(area.width as nat, cols, ds);
    let fm = spec_solver_front(area.width as nat, cols, ds);
    if i == 0 {
        (area.x + fm) as nat
    } else {
        (area.x + fm + 12 + sp + (i - 1) * (ds + sp)) as nat
    }
}

/// One row's regions: `[address, data_0, ..., data_{cols-1}, border]`.
pub open spec fn spec_layout_regions(area: Region, cols: nat, ds: nat) -> Seq<Region> {
    Seq::new(
        cols + 2,
        |i: int|
            Region {
                x: spec_region_x(area, cols, ds, i) as u16,
                y: area.y,
                width: if i == 0 {
                    12
                } else if i <= cols {
                    ds as u16
                } else {
                    1
                },
                height: 1,
            },
    )
}

/// Cut one row of `area` into the address region, `cols` uniform data
/// regions and a right border region, evenly spaced; everything stays
/// inside the area.
pub fn simple_layout_solver(area: &Region, cols: u16, rows: u16, data_size: u16) -> (r: Vec<
    Region,
>)
    requires
        13 + (cols as nat) * (data_size as nat) <= area.width as nat,
        area.x + area.width <= 65535,
        data_size >= 1,
    ensures
        r@ == spec_layout_regions(*area, cols as nat, data_size as nat),
        r@.len() == cols + 2,
        forall|i: int|
            0 <= i < r@.len() ==> #[trigger] r@[i].x + r@[i].width <= area.x + area.width,
        forall|i: int, j: int|
            0 <= i < j < r@.len() ==> #[trigger] r@[i].x + r@[i].width <= #[trigger] r@[j].x,
        12 + (cols as nat) * (data_size as nat) + (cols as nat + 1) * spec_solver_spacing(
            area.width as nat,
            cols as nat,
            data_size as nat,
        ) + 1 <= area.width,
{
    let ghost gcols = cols as nat;
    let ghost gds = data_size as nat;
    let ghost gw = area.width as nat;
    proof {
        assert((cols as nat) * (data_size as nat) < 65536);
        assert(cols as nat <= (cols as nat) * (data_size as nat)) by (nonlinear_arith)
            requires
                data_size >= 1,
                cols >= 0,
        ;
    }
    let used: u16 = 13 + cols * data_size;
    let avail: u16 = area.width - used;
    let spacing: u16 = avail / (cols + 1);
    proof {
        vstd::arithmetic::div_mod::lemma_fundamental_div_mod(avail as int, (cols + 1) as int);
        assert(((cols + 1) as nat) * (spacing as nat) <= avail as nat) by (nonlinear_arith)
            requires
                avail as int == ((cols + 1) as int) * (spacing as int) + (avail as int) % ((cols
                    + 1) as int),
                (avail as int) % ((cols + 1) as int) >= 0,
        ;
        assert(spacing as nat == spec_solver_spacing(gw, gcols, gds));
    }
    let rem: u16 = avail - (cols + 1) * spacing;
    let front: u16 = rem / 2;
    proof {
        assert(front as nat == spec_solver_front(gw, gcols, gds));
    }
    let ghost sp = spacing as nat;
    let ghost fm = front as nat;
    proof {
        // total width: fm + 13 + cols*ds + (cols+1)*sp <= width
        assert(fm + 13 + gcols * gds + (gcols + 1) * sp <= gw);
        assert(fm + 12 + sp + gcols * (gds + sp) + 1 <= gw) by (nonlinear_arith)
            requires
                fm + 13 + gcols * gds + (gcols + 1) * sp <= gw,
        ;
    }
    let mut rects: Vec<Region> = Vec::new();
    let mut x: u16 = area.x + front;
    rects.push(Region { x, y: area.y, width: 12, height: 1 });
    x = x + 12 + spacing;
    let mut i: u16 = 0;
    while i < cols
        invariant
            i <= cols,
            gcols == cols as nat,
            gds == data_size as nat,
            gw == area.width as nat,
            area.x + area.width <= 65535,
            sp == spacing as nat,
            sp == spec_solver_spacing(gw, gcols, gds),
            fm == spec_solver_front(gw, gcols, gds),
            fm + 12 + sp + gcols * (gds + sp) + 1 <= gw,
            x as nat == area.x + fm + 12 + sp + (i as nat) * (gds + sp),
            rects@.len() == i + 1,
            forall|t: int|
                0 <= t < rects@.len() ==> #[trigger] rects@[t] == spec_layout_regions(
                    *area,
                    gcols,
                    gds,
                )[t],
        decreases cols - i,
    {
        proof {
            assert((i as nat) * (gds + sp) + (gds + sp) == ((i + 1) as nat) * (gds + sp))
                by (nonlinear_arith);
            assert((i as nat) * (gds + sp) <= gcols * (gds + sp)) by (nonlinear_arith)
                requires
                    i as nat <= gcols,
            ;
            assert(((i + 1) as nat) * (gds + sp) <= gcols * (gds + sp)) by (nonlinear_arith)
                requires
                    i + 1 <= gcols,
            ;
            assert(x as nat + gds + sp <= area.x + gw);
            assert(spec_region_x(*area, gcols, gds, i + 1) == x as nat);
        }
        let ghost rv = rects@;
        rects.push(Region { x, y: area.y, width: data_size, height: 1 });
        proof {
            assert(rects@[i + 1] == spec_layout_regions(*area, gcols, gds)[i + 1]);
            assert(forall|t: int|
                0 <= t < rv.len() ==> #[trigger] rects@[t] == rv[t]);
        }
        proof {
            assert(x + data_size + spacing <= 65535);
        }
        x = x + data_size + spacing;
        i = i + 1;
    }
    proof {
        assert((i as nat) * (gds + sp) <= gcols * (gds + sp)) by (nonlinear_arith)
            requires
                i as nat <= gcols,
        ;
        assert(spec_region_x(*area, gcols, gds, gcols as int + 1) == x as nat);
    }
    rects.push(Region { x, y: area.y, width: 1, height: 1 });
    proof {
        assert(rects@[gcols as int + 1] == spec_layout_regions(*area, gcols, gds)[gcols as int
            + 1]);
        assert(rects@ =~= spec_layout_regions(*area, gcols, gds));
        assert forall|t: int| 0 <= t < rects@.len() implies #[trigger] rects@[t].x
            + rects@[t].width <= area.x + area.width by {
            let v = spec_region_x(*area, gcols, gds, t);
            if t == 0 {
                assert(v + 12 <= area.x + gw);
            } else {
                assert(((t - 1) as nat) * (gds + sp) + (gds + sp) == (t as nat) * (gds + sp))
                    by (nonlinear_arith)
                    requires
                        t >= 1,
                ;
                if t <= gcols {
                    assert((t as nat) * (gds + sp) <= gcols * (gds + sp)) by (nonlinear_arith)
                        requires
                            1 <= t <= gcols,
                    ;
                    assert(v + gds <= area.x + gw);
                } else {
                    assert(((t - 1) as nat) * (gds + sp) == gcols * (gds + sp));
                    assert(v + 1 <= area.x + gw);
                }
            }
            assert(v <= 65535);
        }
        assert forall|i: int, j: int|
            0 <= i < j < rects@.len() implies #[trigger] rects@[i].x + rects@[i].width
            <= #[trigger] rects@[j].x by {
            let vi = spec_region_x(*area, gcols, gds, i);
            let vj = spec_region_x(*area, gcols, gds, j);
            assert(vi <= 65535 && vj <= 65535) by {
                if i == 0 {
                    assert(vi + 12 <= area.x + gw);
                } else {
                    assert(((i - 1) as nat) * (gds + sp) + (gds + sp) == (i as nat) * (gds + sp))
                        by (nonlinear_arith)
                        requires
                            i >= 1,
                    ;
                    assert((i as nat) * (gds + sp) <= gcols * (gds + sp)) by (nonlinear_arith)
                        requires
                            1 <= i <= gcols,
                    ;
                    assert(vi <= area.x + gw);
                }
                assert(((j - 1) as nat) * (gds + sp) + (gds + sp) == (j as nat) * (gds + sp))
                    by (nonlinear_arith)
                    requires
                        j >= 1,
                ;
                if j <= gcols {
                    assert((j as nat) * (gds + sp) <= gcols * (gds + sp)) by (nonlinear_arith)
                        requires
                            1 <= j <= gcols,
                    ;
                    assert(vj + gds <= area.x + gw);
                } else {
                    assert(((j - 1) as nat) * (gds + sp) == gcols * (gds + sp));
                    assert(vj + 1 <= area.x + gw);
                }
            }
            if i == 0 {
                assert(((j - 1) as nat) * (gds + sp) >= 0);
                assert(vi + 12 <= vj);
            } else {
                assert(((i - 1) as nat) * (gds + sp) + (gds + sp) == (i as nat) * (gds + sp))
                    by (nonlinear_arith)
                    requires
                        i >= 1,
                ;
                assert((i as nat) * (gds + sp) <= ((j - 1) as nat) * (gds + sp))
                    by (nonlinear_arith)
                    requires
                        1 <= i,
                        i <= j - 1,
                ;
                assert(vi + gds <= vj);
            }
        }
    }
    rects
}


// ---------------------------------------------------------------------------
// Rendering
// ---------------------------------------------------------------------------

/// The view of emitted placements that contracts speak of.
pub open spec fn placements_view(s: Seq<Placement>) -> Seq<(Region, Seq<char>, bool)> {
    s.map_values(|p: Placement| (p.region, p.text@, p.header))
}

/// The measured geometry after one redraw: visible rows are the area
/// height less the header and border rows, the column count is the fit
/// for the active type, the virtual row count follows from the buffer
/// length, and the scroll offsets are re-clamped against the new bounds
/// at once, so the viewport invariant holds right after every redraw even
/// when the active type changed under a scrolled viewport.
pub open spec fn spec_measure(st: FileViewerState, v: FileViewer, area: Region) -> FileViewerState {
    let cols = spec_calc_cols(v.data_type, v.display_type, area.width as nat);
    let k = v.data_type.spec_byte_width();
    let rows: nat = if area.height >= 2 {
        (area.height - 2) as nat
    } else {
        0
    };
    let total: nat = match st.set_cols {
        Some(c) => if c == 0 {
            0
        } else {
            v.content@.len() / ((k * c) as nat)
        },
        None => if cols == 0 {
            0
        } else {
            v.content@.len() / ((k * cols) as nat)
        },
    };
    let ro: nat = if total > rows {
        if st.row_offset > total - rows {
            (total - rows) as nat
        } else {
            st.row_offset as nat
        }
    } else {
        0
    };
    let co: nat = match st.set_cols {
        Some(c) => if c > cols {
            if st.col_offset > c - cols {
                (c - cols) as nat
            } else {
                st.col_offset as nat
            }
        } else {
            0
        },
        None => 0,
    };
    FileViewerState {
        row_offset: ro as usize,
        col_offset: co as usize,
        cols: cols as usize,
        rows: rows as usize,
        total_rows: total as usize,
        set_cols: st.set_cols,
    }
}

/// What element `idx` of the buffer renders as.
pub open spec fn spec_cell_text(v: FileViewer, idx: nat) -> Seq<char> {
    spec_format_element(
        spec_decode(v.content@, v.data_type, v.endianness, idx),
        v.data_type,
        v.display_type,
    )
}

/// A row's address label: the row's first element index, eight hex
/// digits wide, between single spaces.
pub open spec fn spec_addr_text(a: nat) -> Seq<char> {
    seq![' '] + hex_pad_seq(a, 8) + seq![' ']
}

/// The data cells of one row from column position `j` on; the row stops
/// at the first element index past the end of the content.
pub open spec fn spec_row_cells(
    v: FileViewer,
    regions: Seq<Region>,
    y: u16,
    row: nat,
    cols: nat,
    col_off: nat,
    n: nat,
    j: nat,
) -> Seq<(Region, Seq<char>, bool)>
    decreases cols - j,
{
    if j >= cols {
        Seq::empty()
    } else {
        let idx = row * cols + col_off + j;
        if idx >= n {
            Seq::empty()
        } else {
            seq![
                (
                    Region {
                        x: regions[j + 1 as int].x,
                        y: y,
                        width: regions[j + 1 as int].width,
                        height: regions[j + 1 as int].height,
                    },
                    spec_cell_text(v, idx),
                    false,
                ),
            ] + spec_row_cells(v, regions, y, row, cols, col_off, n, j + 1)
        }
    }
}

/// Whether every cell of the row is backed by content, so rendering goes
/// on below it.
pub open spec fn spec_row_complete(row: nat, cols: nat, col_off: nat, n: nat) -> bool {
    cols == 0 || row * cols + col_off + cols <= n
}

/// The placements of the data rows from visible row `i` on: each row has
/// its address label and its cells; the first row that runs out of
/// content is the last row emitted.
pub open spec fn spec_data_rows(
    v: FileViewer,
    regions: Seq<Region>,
    area: Region,
    row_off: nat,
    cols: nat,
    col_off: nat,
    n: nat,
    rows: nat,
    i: nat,
) -> Seq<(Region, Seq<char>, bool)>
    decreases rows - i,
{
    if i >= rows {
        Seq::empty()
    } else {
        let row = row_off + i;
        let y = (area.y + 1 + i) as u16;
        let addr = (
            Region {
                x: regions[0].x,
                y: y,
                width: regions[0].width,
                height: regions[0].height,
            },
            spec_addr_text(row * cols),
            true,
        );
        let cells = spec_row_cells(v, regions, y, row, cols, col_off, n, 0);
        if spec_row_complete(row, cols, col_off, n) {
            seq![addr] + cells + spec_data_rows(
                v,
                regions,
                area,
                row_off,
                cols,
                col_off,
                n,
                rows,
                i + 1,
            )
        } else {
            seq![addr] + cells
        }
    }
}

/// The header row: the address column label and one column-index label
/// per visible column.
pub open spec fn spec_header_cells(regions: Seq<Region>, cols: nat) -> Seq<
    (Region, Seq<char>, bool),
> {
    seq![(regions[0], " Address "@, true)] + Seq::new(
        cols,
        |i: int| (regions[i + 1], dec_seq(i as nat), true),
    )
}

/// Everything one redraw emits, over the freshly measured viewport state:
/// nothing when the area cannot hold even the address column, else the
/// header row followed by the visible data rows.
pub open spec fn spec_render(v: FileViewer, area: Region, st: FileViewerState) -> Seq<
    (Region, Seq<char>, bool),
> {
    if area.width < 14 {
        Seq::empty()
    } else {
        let cols = spec_calc_cols(v.data_type, v.display_type, area.width as nat);
        let dw = spec_data_width(v.data_type, v.display_type);
        let regions = spec_layout_regions(area, cols, dw);
        let n = v.content@.len() / v.data_type.spec_byte_width();
        spec_header_cells(regions, cols) + spec_data_rows(
            v,
            regions,
            area,
            st.row_offset as nat,
            cols,
            st.col_offset as nat,
            n,
            st.rows as nat,
            0,
        )
    }
}

/// Measuring is idempotent, so a second redraw with nothing changed
/// emits the very same placements.
pub proof fn lemma_render_idempotent(v: FileViewer, area: Region, st: FileViewerState)
    ensures
        spec_measure(spec_measure(st, v, area), v, area) == spec_measure(st, v, area),
        spec_render(v, area, spec_measure(spec_measure(st, v, area), v, area)) == spec_render(
            v,
            area,
            spec_measure(st, v, area),
        ),
{
}


impl FileViewer {
    /// One redraw: measure the geometry into `state`, re-clamping the
    /// viewport, then emit the header and every visible cell backed by
    /// content.  It touches no other state and does no I/O, so a second
    /// call with nothing changed emits identical placements.
    #[verifier::rlimit(100)]
    pub fn render(&self, area: &Region, state: &mut FileViewerState) -> (r: Vec<Placement>)
        requires
            area.x + area.width <= 65535,
            area.y + area.height <= 65535,
        ensures
            *final(state) == spec_measure(*old(state), *self, *area),
            final(state).inv(),
            placements_view(r@) == spec_render(*self, *area, *final(state)),
    {
        let (cols16, data_width, data_size) = self.calc_cols(area);
        state.rows = if area.height >= 2 {
            (area.height - 2) as usize
        } else {
            0
        };
        state.cols = cols16 as usize;
        let len = self.content.len();
        let k_us = data_size as usize;
        let divisor = match state.set_cols {
            Some(c) => k_us.checked_mul(c),
            None => k_us.checked_mul(state.cols),
        };
        state.total_rows = match divisor {
            Some(dv) => if dv > 0 {
                len / dv
            } else {
                0
            },
            None => 0,
        };
        proof {
            match divisor {
                Some(dv) => {
                    if dv > 0 {
                        assert(len as nat / (dv as nat) <= len) by (nonlinear_arith)
                            requires
                                dv >= 1,
                        ;
                    }
                },
                None => {
                    let c = match state.set_cols {
                        Some(c) => c as nat,
                        None => state.cols as nat,
                    };
                    assert((k_us as nat) * c > usize::MAX >= len);
                    assert(len as nat / ((k_us as nat) * c) == 0) by (nonlinear_arith)
                        requires
                            (k_us as nat) * c > len,
                            len >= 0,
                    ;
                },
            }
        }
        if state.total_rows > state.rows {
            if state.row_offset > state.total_rows - state.rows {
                state.row_offset = state.total_rows - state.rows;
            }
        } else {
            state.row_offset = 0;
        }
        match state.set_cols {
            Some(c) => {
                if c > state.cols {
                    if state.col_offset > c - state.cols {
                        state.col_offset = c - state.cols;
                    }
                } else {
                    state.col_offset = 0;
                }
            },
            None => {
                state.col_offset = 0;
            },
        }
        proof {
            let sm = spec_measure(*old(state), *self, *area);
            let k = self.data_type.spec_byte_width();
            let c: nat = match old(state).set_cols {
                Some(cc) => cc as nat,
                None => state.cols as nat,
            };
            assert(k >= 1);
            assert(k_us as nat == k);
            assert(state.rows == sm.rows);
            assert(state.cols == sm.cols);
            match divisor {
                Some(dv) => {
                    assert(dv as nat == k * c);
                    if c == 0 {
                        assert(k * c == 0) by (nonlinear_arith)
                            requires
                                c == 0,
                        ;
                        assert(state.total_rows == 0);
                    } else {
                        assert(dv >= 1) by (nonlinear_arith)
                            requires
                                dv as nat == k * c,
                                k >= 1,
                                c >= 1,
                        ;
                        assert(len as nat / (dv as nat) <= len) by (nonlinear_arith)
                            requires
                                dv >= 1,
                        ;
                        assert(state.total_rows == len as nat / ((k * c) as nat));
                    }
                },
                None => {
                    assert(k * c > usize::MAX >= len);
                    assert(c != 0) by (nonlinear_arith)
                        requires
                            k * c > 0xFFFF,
                            k <= 8,
                    ;
                    assert(len as nat / ((k * c) as nat) == 0) by (nonlinear_arith)
                        requires
                            k * c > len,
                            len >= 0,
                    ;
                },
            }
            assert(state.total_rows == sm.total_rows);
            assert(state.row_offset == sm.row_offset);
            assert(state.col_offset == sm.col_offset);
            assert(*state == sm);
            assert(state.inv());
        }
        let ghost mst = *state;
        let mut out: Vec<Placement> = Vec::new();
        if area.width < 14 {
            proof {
                assert(placements_view(out@) =~= spec_render(*self, *area, *state));
            }
            return out;
        }
        let areas = simple_layout_solver(area, cols16, 1, data_width);
        let ghost regions = spec_layout_regions(*area, cols16 as nat, data_width as nat);
        let n = element_count(len, &self.data_type);
        proof {
            reveal_strlit(" Address ");
        }
        out.push(
            Placement { region: areas[0], text: " Address ".to_owned(), header: true },
        );
        proof {
            assert(placements_view(out@) =~= seq![(regions[0], " Address "@, true)]);
        }
        let mut hi: u16 = 0;
        while hi < cols16
            invariant
                hi <= cols16,
                areas@ == regions,
                regions.len() == cols16 + 2,
                placements_view(out@) == seq![(regions[0], " Address "@, true)] + Seq::new(
                    hi as nat,
                    |t: int| (regions[t + 1], dec_seq(t as nat), true),
                ),
            decreases cols16 - hi,
        {
            let ghost before = out@;
            out.push(
                Placement {
                    region: areas[(hi as usize) + 1],
                    text: u64_dec(hi as u64),
                    header: true,
                },
            );
            proof {
                assert(placements_view(out@) =~= placements_view(before).push(
                    (regions[hi as int + 1], dec_seq(hi as nat), true),
                ));
                assert(placements_view(out@) =~= seq![(regions[0], " Address "@, true)]
                    + Seq::new(
                    (hi + 1) as nat,
                    |t: int| (regions[t + 1], dec_seq(t as nat), true),
                ));
            }
            hi = hi + 1;
        }
        let ghost hdr = spec_header_cells(regions, cols16 as nat);
        proof {
            assert(placements_view(out@) =~= hdr);
        }
        let rows_e = state.rows;
        let cols_e = state.cols;
        let ro = state.row_offset;
        let co = state.col_offset;
        let ghost grows = rows_e as nat;
        let ghost gcols = cols_e as nat;
        let ghost gn = n as nat;
        let ghost gco = co as nat;
        let ghost gro = ro as nat;
        let ghost target = hdr + spec_data_rows(
            *self,
            regions,
            *area,
            gro,
            gcols,
            gco,
            gn,
            grows,
            0,
        );
        proof {
            assert(spec_render(*self, *area, *state) == target);
            assert(ro + rows_e <= mst.total_rows || ro == 0);
            assert(co + cols_e <= usize::MAX || co == 0);
        }
        let mut ri: usize = 0;
        let mut done = false;
        while ri < rows_e && !done
            invariant
                *state == mst,
                ri <= rows_e,
                area.x + area.width <= 65535,
                area.y + area.height <= 65535,
                area.width >= 14,
                rows_e == mst.rows,
                cols_e == mst.cols,
                ro == mst.row_offset,
                co == mst.col_offset,
                grows == rows_e as nat,
                gcols == cols_e as nat,
                gn == n as nat,
                gco == co as nat,
                gro == ro as nat,
                rows_e == 0 || rows_e + 2 <= area.height,
                ro + rows_e <= mst.total_rows || ro == 0,
                co + cols_e <= usize::MAX || co == 0,
                mst.total_rows <= len,
                len == self.content@.len(),
                n as nat == self.content@.len() / self.data_type.spec_byte_width(),
                data_size as nat == self.data_type.spec_byte_width(),
                areas@ == regions,
                regions.len() == gcols + 2,
                target == hdr + spec_data_rows(
                    *self,
                    regions,
                    *area,
                    gro,
                    gcols,
                    gco,
                    gn,
                    grows,
                    0,
                ),
                target == spec_render(*self, *area, mst),
                !done ==> placements_view(out@) + spec_data_rows(
                    *self,
                    regions,
                    *area,
                    gro,
                    gcols,
                    gco,
                    gn,
                    grows,
                    ri as nat,
                ) == target,
                done ==> placements_view(out@) == target,
            decreases rows_e - ri,
        {
            let row = ro + ri;
            let y = area.y + 1 + (ri as u16);
            let ghost grow = row as nat;
            let ghost gy = y;
            proof {
                assert((row as nat) * gcols < 0x1_0000_0000_0000_0000_0000_0000_0000_0000)
                    by (nonlinear_arith)
                    requires
                        row as nat <= 0xFFFF_FFFF_FFFF_FFFF,
                        gcols <= 0xFFFF_FFFF_FFFF_FFFF,
                ;
            }
            let addrv: u128 = (row as u128) * (cols_e as u128);
            let mut atext = " ".to_owned();
            let ah = u128_hex_pad(addrv, 8);
            atext.append(ah.as_str());
            atext.append(" ");
            proof {
                reveal_strlit(" ");
                assert(atext@ =~= spec_addr_text(grow * gcols));
            }
            let ghost base = placements_view(out@);
            let ghost addr_t = (
                Region {
                    x: regions[0].x,
                    y: gy,
                    width: regions[0].width,
                    height: regions[0].height,
                },
                spec_addr_text(grow * gcols),
                true,
            );
            let areg = Region {
                x: areas[0].x,
                y,
                width: areas[0].width,
                height: areas[0].height,
            };
            out.push(Placement { region: areg, text: atext, header: true });
            proof {
                assert(placements_view(out@) =~= base.push(addr_t));
            }
            let ghost rowcells = spec_row_cells(*self, regions, gy, grow, gcols, gco, gn, 0);
            let mut j: usize = 0;
            let mut row_done = false;
            while j < cols_e && !row_done
                invariant
                    j <= cols_e,
                    gcols == cols_e as nat,
                    gn == n as nat,
                    gco == co as nat,
                    grow == row as nat,
                    gy == y,
                    co + cols_e <= usize::MAX || co == 0,
                    len == self.content@.len(),
                    n as nat == self.content@.len() / self.data_type.spec_byte_width(),
                    data_size as nat == self.data_type.spec_byte_width(),
                    areas@ == regions,
                    regions.len() == gcols + 2,
                    addrv as nat == grow * gcols,
                    rowcells == spec_row_cells(*self, regions, gy, grow, gcols, gco, gn, 0),
                    !row_done ==> placements_view(out@) + spec_row_cells(
                        *self,
                        regions,
                        gy,
                        grow,
                        gcols,
                        gco,
                        gn,
                        j as nat,
                    ) == base + seq![addr_t] + rowcells,
                    !row_done ==> (j == 0 || grow * gcols + gco + j <= gn),
                    row_done ==> placements_view(out@) == base + seq![addr_t] + rowcells
                        && !spec_row_complete(grow, gcols, gco, gn),
                decreases cols_e - j + (if row_done {
                    0int
                } else {
                    1int
                }),
            {
                proof {
                    assert(addrv as nat + gco + j < 0x1_0000_0000_0000_0000_0000_0000_0000_0000)
                        by (nonlinear_arith)
                        requires
                            addrv as nat == grow * gcols,
                            grow <= 0xFFFF_FFFF_FFFF_FFFF,
                            gcols <= 0xFFFF_FFFF_FFFF_FFFF,
                            gco <= 0xFFFF_FFFF_FFFF_FFFF,
                            j <= 0xFFFF_FFFF_FFFF_FFFF,
                    ;
                }
                let idx128: u128 = addrv + (co as u128) + (j as u128);
                if idx128 >= (n as u128) {
                    row_done = true;
                    proof {
                        assert(grow * gcols + gco + j >= gn);
                        assert(!spec_row_complete(grow, gcols, gco, gn));
                        assert(spec_row_cells(*self, regions, gy, grow, gcols, gco, gn, j as nat)
                            =~= Seq::<(Region, Seq<char>, bool)>::empty());
                        assert(placements_view(out@) =~= base + seq![addr_t] + rowcells);
                    }
                } else {
                    let idx = idx128 as usize;
                    proof {
                        assert(idx as nat == grow * gcols + gco + j);
                        crate::viewer::codec::lemma_element_in_range(
                            len as nat,
                            data_size as nat,
                            idx as nat,
                        );
                    }
                    let bits = decode_element(&self.content, &self.data_type, &self.endianness, idx);
                    let txt = format_element(bits, &self.data_type, &self.display_type);
                    let ghost b2 = placements_view(out@);
                    let reg = Region {
                        x: areas[j + 1].x,
                        y,
                        width: areas[j + 1].width,
                        height: areas[j + 1].height,
                    };
                    out.push(Placement { region: reg, text: txt, header: false });
                    proof {
                        assert(placements_view(out@) =~= b2.push(
                            (reg, spec_cell_text(*self, idx as nat), false),
                        ));
                        assert(spec_row_cells(*self, regions, gy, grow, gcols, gco, gn, j as nat)
                            == seq![
                            (
                                Region {
                                    x: regions[j + 1 as int].x,
                                    y: gy,
                                    width: regions[j + 1 as int].width,
                                    height: regions[j + 1 as int].height,
                                },
                                spec_cell_text(*self, (grow * gcols + gco + j) as nat),
                                false,
                            ),
                        ] + spec_row_cells(*self, regions, gy, grow, gcols, gco, gn, (j + 1) as nat));
                        assert(placements_view(out@) + spec_row_cells(
                            *self,
                            regions,
                            gy,
                            grow,
                            gcols,
                            gco,
                            gn,
                            (j + 1) as nat,
                        ) =~= base + seq![addr_t] + rowcells);
                    }
                    j = j + 1;
                }
            }
            if row_done {
                done = true;
                proof {
                    assert(spec_data_rows(
                        *self,
                        regions,
                        *area,
                        gro,
                        gcols,
                        gco,
                        gn,
                        grows,
                        ri as nat,
                    ) == seq![addr_t] + rowcells);
                    assert(placements_view(out@) =~= target);
                }
            } else {
                proof {
                    assert(j == cols_e);
                    assert(spec_row_cells(*self, regions, gy, grow, gcols, gco, gn, j as nat)
                        =~= Seq::<(Region, Seq<char>, bool)>::empty());
                    assert(placements_view(out@) =~= base + seq![addr_t] + rowcells);
                    assert(spec_row_complete(grow, gcols, gco, gn));
                    assert(spec_data_rows(
                        *self,
                        regions,
                        *area,
                        gro,
                        gcols,
                        gco,
                        gn,
                        grows,
                        ri as nat,
                    ) == seq![addr_t] + rowcells + spec_data_rows(
                        *self,
                        regions,
                        *area,
                        gro,
                        gcols,
                        gco,
                        gn,
                        grows,
                        (ri + 1) as nat,
                    ));
                    assert(placements_view(out@) + spec_data_rows(
                        *self,
                        regions,
                        *area,
                        gro,
                        gcols,
                        gco,
                        gn,
                        grows,
                        (ri + 1) as nat,
                    ) =~= target);
                }
            }
            ri = ri + 1;
        }
        proof {
            if !done {
                assert(spec_data_rows(
                    *self,
                    regions,
                    *area,
                    gro,
                    gcols,
                    gco,
                    gn,
                    grows,
                    ri as nat,
                ) =~= Seq::<(Region, Seq<char>, bool)>::empty());
                assert(placements_view(out@) =~= target);
            }
        }
        out
    }
}


} // verus!
