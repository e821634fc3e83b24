use vstd::prelude::*;
use crate::config::Config;
use crate::layout::{offsets_fit, Layout};

verus! {

/// Boards considered per row: `ceil(room / plank) + 1`.
pub open spec fn board_count(cfg: Config) -> int {
    (cfg.room_height + cfg.plank_full_length - 1) / (cfg.plank_full_length as int) + 1
}

/// Visible length of board `k` of a row whose first board starts at `o`:
/// its span `[o + k*plank, o + (k+1)*plank)` clipped to `[0, room)`.
pub open spec fn visible_piece(cfg: Config, o: int, k: int) -> int {
    let start = o + k * cfg.plank_full_length;
    let end = start + cfg.plank_full_length;
    let vs = if start > 0 { start } else { 0 };
    let ve = if end < cfg.room_height { end } else { cfg.room_height as int };
    ve - vs
}

/// The positive visible pieces among the first `k` boards of a row.
pub open spec fn row_pieces(cfg: Config, o: int, k: nat) -> Seq<u64>
    decreases k,
{
    if k == 0 {
        Seq::empty()
    } else {
        let s = row_pieces(cfg, o, (k - 1) as nat);
        let v = visible_piece(cfg, o, k - 1);
        if v > 0 {
            s.push(v as u64)
        } else {
            s
        }
    }
}

/// The cut requirements of all rows, row by row.
pub open spec fn layout_pieces(cfg: Config, offs: Seq<i64>) -> Seq<u64>
    decreases offs.len(),
{
    if offs.len() == 0 {
        Seq::empty()
    } else {
        layout_pieces(cfg, offs.drop_last()) + row_pieces(
            cfg,
            offs.last() as int,
            board_count(cfg) as nat,
        )
    }
}

proof fn lemma_board_span(cfg: Config)
    requires
        cfg.wf(),
    ensures
        board_count(cfg) >= 1,
        board_count(cfg) * cfg.plank_full_length <= cfg.room_height + 2 * cfg.plank_full_length,
{
    let p = cfg.plank_full_length as int;
    let a = cfg.room_height + p - 1;
    assert((a / p) * p <= a) by (nonlinear_arith)
        requires
            p > 0,
            a >= 0,
    ;
    assert(a / p >= 0) by (nonlinear_arith)
        requires
            p > 0,
            a >= 0,
    ;
    assert(board_count(cfg) * p == (a / p) * p + p) by (nonlinear_arith)
        requires
            board_count(cfg) == a / p + 1,
    ;
}

/// The visible board lengths that cover the room in every row.
pub fn calculate_requirements(config: &Config, layout: &Layout) -> (r: Vec<u64>)
    requires
        config.wf(),
        layout.fits(config.plank_full_length),
    ensures
        r@ == layout_pieces(*config, layout.row_offsets@),
{
    let ghost cfg = *config;
    let ghost offs = layout.row_offsets@;
    proof {
        lemma_board_span(cfg);
    }
    let p = config.plank_full_length as i64;
    let h = config.room_height as i64;
    let num_boards: u64 = (config.room_height + config.plank_full_length - 1)
        / config.plank_full_length + 1;
    let mut requirements: Vec<u64> = Vec::new();
    let n = layout.row_offsets.len();
    let mut i: usize = 0;
    while i < n
        invariant
            cfg == *config,
            offs == layout.row_offsets@,
            cfg.wf(),
            offsets_fit(offs, cfg.plank_full_length),
            n == offs.len(),
            0 <= i <= n,
            p == cfg.plank_full_length,
            h == cfg.room_height,
            num_boards == board_count(cfg),
            num_boards * p <= h + 2 * p,
            requirements@ == layout_pieces(cfg, offs.take(i as int)),
        decreases n - i,
    {
        let offset = layout.row_offsets[i];
        assert(-p <= offset <= 0);
        let mut current_y: i64 = offset;
        let mut k: u64 = 0;
        while k < num_boards
            invariant
                cfg.wf(),
                0 <= k <= num_boards,
                -p <= offset <= 0,
                p == cfg.plank_full_length,
                h == cfg.room_height,
                num_boards * p <= h + 2 * p,
                current_y == offset + k * p,
                requirements@ == layout_pieces(cfg, offs.take(i as int)) + row_pieces(
                    cfg,
                    offset as int,
                    k as nat,
                ),
            decreases num_boards - k,
        {
            assert(k * p < num_boards * p) by (nonlinear_arith)
                requires
                    k < num_boards,
                    p > 0,
            ;
            let board_end = current_y + p;
            let visible_start = if current_y > 0 {
                current_y
            } else {
                0
            };
            let visible_end = if board_end < h {
                board_end
            } else {
                h
            };
            if visible_end > visible_start {
                requirements.push((visible_end - visible_start) as u64);
            }
            assert(offset + (k + 1) * p == offset + k * p + p) by (nonlinear_arith);
            current_y = current_y + p;
            k = k + 1;
        }
        assert(offs.take(i + 1).drop_last() =~= offs.take(i as int));
        assert(offs.take(i + 1).last() == offset);
        i = i + 1;
    }
    assert(offs.take(n as int) =~= offs);
    requirements
}

proof fn lemma_aligned_row(cfg: Config, k: nat)
    requires
        cfg.wf(),
        cfg.room_height % cfg.plank_full_length == 0,
    ensures
        forall|i: int|
            0 <= i < row_pieces(cfg, 0, k).len() ==> #[trigger] row_pieces(cfg, 0, k)[i]
                == cfg.plank_full_length,
        row_pieces(cfg, 0, k).len() == if k <= cfg.room_height / cfg.plank_full_length {
            k as int
        } else {
            cfg.room_height as int / cfg.plank_full_length as int
        },
    decreases k,
{
    if k > 0 {
        lemma_aligned_row(cfg, (k - 1) as nat);
        let p = cfg.plank_full_length as int;
        let h = cfg.room_height as int;
        let m = h / p;
        let j = k - 1;
        assert(h == m * p) by (nonlinear_arith)
            requires
                p > 0,
                h % p == 0,
                m == h / p,
        ;
        if j + 1 <= m {
            assert((j + 1) * p <= m * p) by (nonlinear_arith)
                requires
                    j + 1 <= m,
                    p > 0,
            ;
            assert(j * p >= 0) by (nonlinear_arith)
                requires
                    j >= 0,
                    p > 0,
            ;
            assert((j + 1) * p == j * p + p) by (nonlinear_arith);
            assert(visible_piece(cfg, 0, j) == p);
        } else {
            assert(j * p >= m * p) by (nonlinear_arith)
                requires
                    j >= m,
                    p > 0,
            ;
            assert(m * p >= 0) by (nonlinear_arith)
                requires
                    m >= 0,
                    p > 0,
            ;
            assert(visible_piece(cfg, 0, j) <= 0);
        }
        let s = row_pieces(cfg, 0, j as nat);
        assert forall|i: int| 0 <= i < row_pieces(cfg, 0, k).len() implies #[trigger] row_pieces(
            cfg,
            0,
            k,
        )[i] == cfg.plank_full_length by {
            if i < s.len() {
                assert(row_pieces(cfg, 0, k)[i] == s[i]);
            }
        }
    }
}

/// With every offset zero and a room height that is a whole number of
/// planks, every requirement is a full plank: no partial boards. Each row
/// needs `room / plank` of them.
pub proof fn lemma_aligned_layout_full(cfg: Config, offs: Seq<i64>)
    requires
        cfg.wf(),
        cfg.room_height % cfg.plank_full_length == 0,
        forall|i: int| 0 <= i < offs.len() ==> offs[i] == 0,
    ensures
        forall|i: int|
            0 <= i < layout_pieces(cfg, offs).len() ==> #[trigger] layout_pieces(cfg, offs)[i]
                == cfg.plank_full_length,
        layout_pieces(cfg, offs).len() == offs.len() * (cfg.room_height as int
            / cfg.plank_full_length as int),
    decreases offs.len(),
{
    let p = cfg.plank_full_length as int;
    let h = cfg.room_height as int;
    let m = h / p;
    assert(h == m * p) by (nonlinear_arith)
        requires
            p > 0,
            h % p == 0,
            m == h / p,
    ;
    assert((m * p + p - 1) / p == m) by (nonlinear_arith)
        requires
            p > 0,
            m >= 0,
    ;
    assert(board_count(cfg) == m + 1);
    if offs.len() > 0 {
        let rest = offs.drop_last();
        lemma_aligned_layout_full(cfg, rest);
        lemma_board_span(cfg);
        lemma_aligned_row(cfg, board_count(cfg) as nat);
        assert(offs.last() == 0);
        let a = layout_pieces(cfg, rest);
        let b = row_pieces(cfg, 0, board_count(cfg) as nat);
        assert(b.len() == m);
        assert((offs.len() - 1) * m + m == offs.len() * m) by (nonlinear_arith);
        assert forall|i: int| 0 <= i < (a + b).len() implies #[trigger] (a + b)[i]
            == cfg.plank_full_length by {
            if i < a.len() {
                assert((a + b)[i] == a[i]);
            } else {
                assert((a + b)[i] == b[i - a.len()]);
            }
        }
    }
}

} // verus!
