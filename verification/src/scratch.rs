//! The block script of a Scratch project that draws paths with the pen:
//! when the green flag is clicked it clears the stage, then for each path
//! goes to its first point, puts the pen down, visits the other points and
//! lifts the pen.
use vstd::prelude::*;
use crate::text::{decimal, push_decimal};

verus! {

/// The Scratch opcode of a block.
#[derive(Clone, Copy, Debug, PartialEq, Eq, Structural)]
pub enum BlockOp {
    WhenFlagClicked,
    PenClear,
    PenUp,
    PenDown,
    GotoXY,
}

/// Which block of the script: the three blocks that open it, or a block of
/// path `path`.
#[derive(Clone, Copy, Debug, PartialEq, Eq, Structural)]
pub enum BlockKey {
    Start,
    Clear,
    PenUpStart,
    Move { path: usize, point: usize },
    PenDown { path: usize },
    PenUp { path: usize },
}

/// A block of the script: its identifier, opcode, the identifiers of the
/// blocks after and before it, whether it heads the script, and for a
/// `goto x y` block the path and point it goes to.
#[derive(Debug)]
pub struct ScratchBlock {
    pub id: String,
    pub opcode: BlockOp,
    pub next: Option<String>,
    pub parent: Option<String>,
    pub top_level: bool,
    pub point: Option<(usize, usize)>,
}

/// The identifier of a block.
pub open spec fn key_id(k: BlockKey) -> Seq<char> {
    match k {
        BlockKey::Start => "start"@,
        BlockKey::Clear => "clear"@,
        BlockKey::PenUpStart => "pu_start"@,
        BlockKey::Move { path, point } => "path_"@ + decimal(path as nat) + "_pt_"@ + decimal(point as nat)
            + "_move"@,
        BlockKey::PenDown { path } => "path_"@ + decimal(path as nat) + "_pd"@,
        BlockKey::PenUp { path } => "path_"@ + decimal(path as nat) + "_pu"@,
    }
}

/// The opcode of a block.
pub open spec fn key_op(k: BlockKey) -> BlockOp {
    match k {
        BlockKey::Start => BlockOp::WhenFlagClicked,
        BlockKey::Clear => BlockOp::PenClear,
        BlockKey::PenUpStart => BlockOp::PenUp,
        BlockKey::Move { .. } => BlockOp::GotoXY,
        BlockKey::PenDown { .. } => BlockOp::PenDown,
        BlockKey::PenUp { .. } => BlockOp::PenUp,
    }
}

/// The point a block goes to.
pub open spec fn key_point(k: BlockKey) -> Option<(usize, usize)> {
    match k {
        BlockKey::Move { path, point } => Some((path, point)),
        _ => None,
    }
}

/// The block that follows `k`, for paths of `lens` points.
pub open spec fn next_key(lens: Seq<usize>, k: BlockKey) -> Option<BlockKey> {
    match k {
        BlockKey::Start => Some(BlockKey::Clear),
        BlockKey::Clear => Some(BlockKey::PenUpStart),
        BlockKey::PenUpStart => if lens.len() == 0 {
            None
        } else {
            Some(BlockKey::Move { path: 0, point: 0 })
        },
        BlockKey::Move { path, point } => if point == 0 {
            Some(BlockKey::PenDown { path })
        } else if point == lens[path as int] - 1 {
            Some(BlockKey::PenUp { path })
        } else {
            Some(BlockKey::Move { path, point: (point + 1) as usize })
        },
        BlockKey::PenDown { path } => if lens[path as int] > 1 {
            Some(BlockKey::Move { path, point: 1 })
        } else {
            Some(BlockKey::PenUp { path })
        },
        BlockKey::PenUp { path } => if path == lens.len() - 1 {
            None
        } else {
            Some(BlockKey::Move { path: (path + 1) as usize, point: 0 })
        },
    }
}

/// The block that ends the script before path `p`: the pen-up of the last
/// non-empty path before it, or the opening pen-up.
pub open spec fn last_before(lens: Seq<usize>, p: int) -> BlockKey
    decreases p,
{
    if p <= 0 {
        BlockKey::PenUpStart
    } else if lens[p - 1] > 0 {
        BlockKey::PenUp { path: (p - 1) as usize }
    } else {
        last_before(lens, p - 1)
    }
}

/// The block that precedes `k`.
pub open spec fn parent_key(lens: Seq<usize>, k: BlockKey) -> Option<BlockKey> {
    match k {
        BlockKey::Start => None,
        BlockKey::Clear => Some(BlockKey::Start),
        BlockKey::PenUpStart => Some(BlockKey::Clear),
        BlockKey::Move { path, point } => if point == 0 {
            Some(last_before(lens, path as int))
        } else if point == 1 {
            Some(BlockKey::PenDown { path })
        } else {
            Some(BlockKey::Move { path, point: (point - 1) as usize })
        },
        BlockKey::PenDown { path } => Some(BlockKey::Move { path, point: 0 }),
        BlockKey::PenUp { path } => if lens[path as int] == 1 {
            Some(BlockKey::PenDown { path })
        } else {
            Some(BlockKey::Move { path, point: (lens[path as int] - 1) as usize })
        },
    }
}

/// Block `k` of the blocks of a path of `n` points: its first point, the
/// pen-down, the other points, the pen-up.
pub open spec fn section_key(p: usize, n: usize, k: int) -> BlockKey {
    if k == 0 {
        BlockKey::Move { path: p, point: 0 }
    } else if k == 1 {
        BlockKey::PenDown { path: p }
    } else if k <= n {
        BlockKey::Move { path: p, point: (k - 1) as usize }
    } else {
        BlockKey::PenUp { path: p }
    }
}

/// The first `m` blocks of the blocks of path `p`.
pub open spec fn section_prefix(lens: Seq<usize>, p: int, m: int) -> Seq<BlockKey> {
    Seq::new(m as nat, |k: int| section_key(p as usize, lens[p], k))
}

/// The blocks of path `p`; none for an empty path.
pub open spec fn section(lens: Seq<usize>, p: int) -> Seq<BlockKey> {
    if lens[p] == 0 {
        Seq::empty()
    } else {
        section_prefix(lens, p, lens[p] + 2)
    }
}

/// The blocks of the first `m` paths.
pub open spec fn sections(lens: Seq<usize>, m: int) -> Seq<BlockKey>
    decreases m,
{
    if m <= 0 {
        Seq::empty()
    } else {
        sections(lens, m - 1) + section(lens, m - 1)
    }
}

/// The blocks that open the script.
pub open spec fn header_keys() -> Seq<BlockKey> {
    seq![BlockKey::Start, BlockKey::Clear, BlockKey::PenUpStart]
}

/// Every block of the script for paths of `lens` points, in the order in
/// which the script runs them.
pub open spec fn plan_keys(lens: Seq<usize>) -> Seq<BlockKey> {
    header_keys() + sections(lens, lens.len() as int)
}

/// The view of an optional string.
pub open spec fn opt_text(s: Option<String>) -> Option<Seq<char>> {
    match s {
        Some(t) => Some(t@),
        None => None,
    }
}

/// The identifier of an optional block.
pub open spec fn opt_key_id(k: Option<BlockKey>) -> Option<Seq<char>> {
    match k {
        Some(x) => Some(key_id(x)),
        None => None,
    }
}

/// `b` is block `k` of the script, with `parent` before it.
pub open spec fn block_is(b: ScratchBlock, lens: Seq<usize>, k: BlockKey, parent: Option<BlockKey>) -> bool {
    &&& b.id@ == key_id(k)
    &&& b.opcode == key_op(k)
    &&& opt_text(b.next) == opt_key_id(next_key(lens, k))
    &&& opt_text(b.parent) == opt_key_id(parent)
    &&& b.top_level == (k == BlockKey::Start)
    &&& b.point == key_point(k)
}

/// `bs` are the blocks `keys`, each with its parent.
pub open spec fn blocks_are(bs: Seq<ScratchBlock>, lens: Seq<usize>, keys: Seq<BlockKey>) -> bool {
    &&& bs.len() == keys.len()
    &&& forall|i: int| 0 <= i < bs.len() ==> block_is(#[trigger] bs[i], lens, keys[i], parent_key(lens, keys[i]))
}

/// Block `k` names a path and point that exist.
pub open spec fn key_in_range(lens: Seq<usize>, k: BlockKey) -> bool {
    match k {
        BlockKey::Move { path, point } => path < lens.len() && point < lens[path as int],
        BlockKey::PenDown { path } => path < lens.len() && lens[path as int] > 0,
        BlockKey::PenUp { path } => path < lens.len() && lens[path as int] > 0,
        _ => true,
    }
}

/// Writes the identifier of a block.
pub fn key_id_text(k: BlockKey) -> (r: String)
    ensures
        r@ == key_id(k),
{
    match k {
        BlockKey::Start => String::from_str("start"),
        BlockKey::Clear => String::from_str("clear"),
        BlockKey::PenUpStart => String::from_str("pu_start"),
        BlockKey::Move { path, point } => {
            let mut r = String::from_str("path_");
            push_decimal(&mut r, path as u64);
            r.append("_pt_");
            push_decimal(&mut r, point as u64);
            r.append("_move");
            r
        },
        BlockKey::PenDown { path } => {
            let mut r = String::from_str("path_");
            push_decimal(&mut r, path as u64);
            r.append("_pd");
            r
        },
        BlockKey::PenUp { path } => {
            let mut r = String::from_str("path_");
            push_decimal(&mut r, path as u64);
            r.append("_pu");
            r
        },
    }
}

/// The block that follows `k`.
pub fn next_block(lens: &Vec<usize>, k: BlockKey) -> (r: Option<BlockKey>)
    requires
        key_in_range(lens@, k),
    ensures
        r == next_key(lens@, k),
{
    match k {
        BlockKey::Start => Some(BlockKey::Clear),
        BlockKey::Clear => Some(BlockKey::PenUpStart),
        BlockKey::PenUpStart => if lens.len() == 0 {
            None
        } else {
            Some(BlockKey::Move { path: 0, point: 0 })
        },
        BlockKey::Move { path, point } => if point == 0 {
            Some(BlockKey::PenDown { path })
        } else if point == lens[path] - 1 {
            Some(BlockKey::PenUp { path })
        } else {
            Some(BlockKey::Move { path, point: point + 1 })
        },
        BlockKey::PenDown { path } => if lens[path] > 1 {
            Some(BlockKey::Move { path, point: 1 })
        } else {
            Some(BlockKey::PenUp { path })
        },
        BlockKey::PenUp { path } => if path == lens.len() - 1 {
            None
        } else {
            Some(BlockKey::Move { path: path + 1, point: 0 })
        },
    }
}

/// The opcode of a block.
pub fn block_op(k: BlockKey) -> (r: BlockOp)
    ensures
        r == key_op(k),
{
    match k {
        BlockKey::Start => BlockOp::WhenFlagClicked,
        BlockKey::Clear => BlockOp::PenClear,
        BlockKey::PenUpStart => BlockOp::PenUp,
        BlockKey::Move { .. } => BlockOp::GotoXY,
        BlockKey::PenDown { .. } => BlockOp::PenDown,
        BlockKey::PenUp { .. } => BlockOp::PenUp,
    }
}

/// Builds block `k` with `parent` before it.
pub fn make_block(lens: &Vec<usize>, k: BlockKey, parent: Option<BlockKey>) -> (b: ScratchBlock)
    requires
        key_in_range(lens@, k),
    ensures
        block_is(b, lens@, k, parent),
{
    let next = match next_block(lens, k) {
        Some(n) => Some(key_id_text(n)),
        None => None,
    };
    let parent_id = match parent {
        Some(p) => Some(key_id_text(p)),
        None => None,
    };
    let point = match k {
        BlockKey::Move { path, point } => Some((path, point)),
        _ => None,
    };
    let top_level = match k {
        BlockKey::Start => true,
        _ => false,
    };
    ScratchBlock { id: key_id_text(k), opcode: block_op(k), next, parent: parent_id, top_level, point }
}

/// Splitting off the last path.
proof fn lemma_sections_step(lens: Seq<usize>, p: int)
    requires
        0 <= p,
    ensures
        sections(lens, p + 1) == sections(lens, p) + section(lens, p),
{
}

/// The blocks of the script that draws paths of `path_lens` points, in the
/// order in which it runs them (empty paths get no blocks).
pub fn scratch_blocks(path_lens: &Vec<usize>) -> (r: Vec<ScratchBlock>)
    ensures
        blocks_are(r@, path_lens@, plan_keys(path_lens@)),
{
    let ghost lens = path_lens@;
    let mut r: Vec<ScratchBlock> = Vec::new();
    r.push(make_block(path_lens, BlockKey::Start, None));
    r.push(make_block(path_lens, BlockKey::Clear, Some(BlockKey::Start)));
    r.push(make_block(path_lens, BlockKey::PenUpStart, Some(BlockKey::Clear)));
    let mut prev = BlockKey::PenUpStart;
    let n = path_lens.len();
    let mut p: usize = 0;
    assert(header_keys() + sections(lens, 0) =~= header_keys());
    while p < n
        invariant
            n == lens.len(),
            lens == path_lens@,
            p <= n,
            blocks_are(r@, lens, header_keys() + sections(lens, p as int)),
            prev == last_before(lens, p as int),
        decreases n - p,
    {
        let len = path_lens[p];
        let ghost base = header_keys() + sections(lens, p as int);
        proof {
            lemma_sections_step(lens, p as int);
        }
        if len == 0 {
            assert(section(lens, p as int) =~= Seq::<BlockKey>::empty());
            assert(base + section(lens, p as int) =~= base);
            assert(header_keys() + sections(lens, p + 1) =~= base + section(lens, p as int));
            p = p + 1;
            assert(prev == last_before(lens, p as int));
            continue;
        }
        let mut i: usize = 0;
        let ghost done: int = 0;
        while i < len
            invariant
                n == lens.len(),
                lens == path_lens@,
                p < n,
                len == lens[p as int],
                len > 0,
                i <= len,
                base == header_keys() + sections(lens, p as int),
                done == (if i == 0 { 0int } else { i + 1 }),
                blocks_are(r@, lens, base + section_prefix(lens, p as int, done)),
                i == 0 ==> prev == last_before(lens, p as int),
                i == 1 ==> prev == (BlockKey::PenDown { path: p }),
                i >= 2 ==> prev == (BlockKey::Move { path: p, point: (i - 1) as usize }),
            decreases len - i,
        {
            let key = BlockKey::Move { path: p, point: i };
            let ghost keys0 = base + section_prefix(lens, p as int, done);
            assert(parent_key(lens, key) == Some(prev));
            r.push(make_block(path_lens, key, Some(prev)));
            prev = key;
            if i == 0 {
                assert(keys0.push(key) =~= base + section_prefix(lens, p as int, 1));
                let pd = BlockKey::PenDown { path: p };
                r.push(make_block(path_lens, pd, Some(key)));
                prev = pd;
                proof {
                    done = 2;
                }
                assert(base + section_prefix(lens, p as int, 1) + seq![pd] =~= base + section_prefix(lens, p as int, 2));
            } else {
                proof {
                    done = done + 1;
                }
                assert(keys0.push(key) =~= base + section_prefix(lens, p as int, done));
            }
            i = i + 1;
        }
        let pu = BlockKey::PenUp { path: p };
        assert(parent_key(lens, pu) == Some(prev));
        r.push(make_block(path_lens, pu, Some(prev)));
        prev = pu;
        proof {
            assert(base + section_prefix(lens, p as int, len + 1) + seq![pu] =~= base + section(lens, p as int));
            assert(header_keys() + sections(lens, p + 1) =~= base + section(lens, p as int));
        }
        p = p + 1;
    }
    r
}

/// With no empty path, the blocks run in the order listed: the script
/// opens with the flag block, each block's next is the block after it and
/// its parent the block before it, and the last block has no next.
#[verifier::spinoff_prover]
#[verifier::rlimit(40)]
pub proof fn law_scratch_script_chained(lens: Seq<usize>)
    requires
        lens.len() <= usize::MAX,
        forall|p: int| 0 <= p < lens.len() ==> #[trigger] lens[p] > 0,
    ensures
        ({
            let keys = plan_keys(lens);
            &&& keys[0] == BlockKey::Start
            &&& forall|i: int|
                0 <= i < keys.len() - 1 ==> #[trigger] next_key(lens, keys[i]) == Some(keys[i + 1])
                    && parent_key(lens, keys[i + 1]) == Some(keys[i])
            &&& next_key(lens, keys[keys.len() - 1]) is None
            &&& parent_key(lens, keys[0]) is None
        }),
{
    lemma_sections_chained(lens, lens.len() as int);
    let keys = plan_keys(lens);
    if lens.len() > 0 {
        assert(lens[lens.len() - 1] > 0);
    }
    let h = header_keys();
    let body = sections(lens, lens.len() as int);
    assert(keys == h + body);
    assert(keys.len() == body.len() + 3);
    assert(keys[0] == BlockKey::Start);
    assert(keys[1] == BlockKey::Clear);
    assert(keys[2] == BlockKey::PenUpStart);
    assert forall|i: int| 0 <= i < keys.len() - 1 implies #[trigger] next_key(lens, keys[i]) == Some(keys[i + 1])
        && parent_key(lens, keys[i + 1]) == Some(keys[i]) by {
        if i < 2 {
        } else if i == 2 {
            assert(keys[3] == body[0]);
            assert(last_before(lens, 0) == BlockKey::PenUpStart);
        } else {
            assert(keys[i] == body[i - 3]);
            assert(keys[i + 1] == body[i - 2]);
        }
    }
    if lens.len() == 0 {
        assert(keys =~= h);
    } else {
        assert(keys[keys.len() - 1] == body[body.len() - 1]);
    }
}

/// The blocks of a non-empty path chain from its first point to its
/// pen-up.
proof fn lemma_section_chained(lens: Seq<usize>, p: int)
    requires
        0 <= p < lens.len(),
        lens.len() <= usize::MAX,
        lens[p] > 0,
    ensures
        ({
            let sec = section(lens, p);
            &&& sec.len() == lens[p] + 2
            &&& sec[0] == (BlockKey::Move { path: p as usize, point: 0 })
            &&& sec[sec.len() - 1] == (BlockKey::PenUp { path: p as usize })
            &&& forall|k: int| 0 <= k < sec.len() ==> key_in_range(lens, #[trigger] sec[k])
            &&& forall|k: int|
                0 <= k < sec.len() - 1 ==> #[trigger] next_key(lens, sec[k]) == Some(sec[k + 1])
                    && parent_key(lens, sec[k + 1]) == Some(sec[k])
        }),
{
    let n = lens[p];
    let sec = section(lens, p);
    let q = p as usize;
    assert(q == p);
    assert(sec == section_prefix(lens, p, n + 2));
    assert(sec.len() == n + 2);
    assert forall|k: int| 0 <= k < sec.len() implies key_in_range(lens, #[trigger] sec[k]) by {
        assert(sec[k] == section_key(q, n, k));
    }
    assert forall|k: int| 0 <= k < sec.len() - 1 implies #[trigger] next_key(lens, sec[k]) == Some(sec[k + 1])
        && parent_key(lens, sec[k + 1]) == Some(sec[k]) by {
        assert(sec[k] == section_key(q, n, k));
        assert(sec[k + 1] == section_key(q, n, k + 1));
        if k == 0 {
        } else if k == 1 {
        } else if k < n {
        } else {
        }
    }
}

/// The blocks of the first `m` paths, when none is empty, chain from the
/// first block of path 0 to the pen-up of path `m - 1`.
#[verifier::spinoff_prover]
proof fn lemma_sections_chained(lens: Seq<usize>, m: int)
    requires
        0 <= m <= lens.len(),
        lens.len() <= usize::MAX,
        forall|p: int| 0 <= p < lens.len() ==> #[trigger] lens[p] > 0,
    ensures
        ({
            let s = sections(lens, m);
            &&& m == 0 <==> s.len() == 0
            &&& m > 0 ==> s[0] == (BlockKey::Move { path: 0, point: 0 })
            &&& m > 0 ==> s[s.len() - 1] == (BlockKey::PenUp { path: (m - 1) as usize })
            &&& forall|i: int| 0 <= i < s.len() ==> key_in_range(lens, #[trigger] s[i])
            &&& forall|i: int|
                0 <= i < s.len() - 1 ==> #[trigger] next_key(lens, s[i]) == Some(s[i + 1])
                    && parent_key(lens, s[i + 1]) == Some(s[i])
        }),
    decreases m,
{
    if m > 0 {
        lemma_sections_chained(lens, m - 1);
        let prev = sections(lens, m - 1);
        let p = m - 1;
        assert(lens[p] > 0);
        lemma_section_chained(lens, p);
        let sec = section(lens, p);
        let s = sections(lens, m);
        assert(s == prev + sec);
        if p > 0 {
            assert(lens[p - 1] > 0);
            assert(last_before(lens, p) == (BlockKey::PenUp { path: (p - 1) as usize }));
        }
        assert forall|i: int| 0 <= i < s.len() implies key_in_range(lens, #[trigger] s[i]) by {
            if i < prev.len() {
                assert(s[i] == prev[i]);
            } else {
                assert(s[i] == sec[i - prev.len()]);
            }
        }
        assert forall|i: int| 0 <= i < s.len() - 1 implies #[trigger] next_key(lens, s[i]) == Some(s[i + 1])
            && parent_key(lens, s[i + 1]) == Some(s[i]) by {
            if i < prev.len() - 1 {
                assert(s[i] == prev[i]);
                assert(s[i + 1] == prev[i + 1]);
            } else if i == prev.len() - 1 {
                assert(s[i] == prev[i]);
                assert(s[i + 1] == sec[0]);
            } else {
                let k = i - prev.len();
                assert(s[i] == sec[k]);
                assert(s[i + 1] == sec[k + 1]);
            }
        }
        if p == 0 {
            assert(s[0] == sec[0]);
        } else {
            assert(s[0] == prev[0]);
        }
        assert(s[s.len() - 1] == sec[sec.len() - 1]);
    }
}

/// Decimal notation is made of digits.
proof fn lemma_decimal_digits(n: nat)
    ensures
        forall|i: int| 0 <= i < decimal(n).len() ==> '0' <= #[trigger] decimal(n)[i] <= '9',
    decreases n,
{
    if n >= 10 {
        lemma_decimal_digits(n / 10);
        let d = decimal(n);
        assert forall|i: int| 0 <= i < d.len() implies '0' <= #[trigger] d[i] <= '9' by {
            if i < d.len() - 1 {
                assert(d[i] == decimal(n / 10)[i]);
            }
        }
    }
}

/// Two digit strings each followed by text starting with `_` can only
/// match when the digit strings and the rests match.
proof fn lemma_digits_then_underscore(d1: Seq<char>, x: Seq<char>, d2: Seq<char>, y: Seq<char>)
    requires
        forall|i: int| 0 <= i < d1.len() ==> '0' <= #[trigger] d1[i] <= '9',
        forall|i: int| 0 <= i < d2.len() ==> '0' <= #[trigger] d2[i] <= '9',
        x.len() > 0 && x[0] == '_',
        y.len() > 0 && y[0] == '_',
        d1 + x == d2 + y,
    ensures
        d1 == d2,
        x == y,
{
    let a = d1 + x;
    if d1.len() < d2.len() {
        assert(a[d1.len() as int] == x[0]);
        assert((d2 + y)[d1.len() as int] == d2[d1.len() as int]);
        assert(false);
    } else if d2.len() < d1.len() {
        assert((d2 + y)[d2.len() as int] == y[0]);
        assert(a[d2.len() as int] == d1[d2.len() as int]);
        assert(false);
    }
    assert(d1 =~= a.subrange(0, d1.len() as int));
    assert(d2 =~= (d2 + y).subrange(0, d2.len() as int));
    assert(x =~= a.subrange(d1.len() as int, a.len() as int));
    assert(y =~= (d2 + y).subrange(d2.len() as int, a.len() as int));
}

/// The identifier of a block of path `p` after `path_`.
proof fn lemma_path_id_split(k: BlockKey)
    requires
        !(k is Start || k is Clear || k is PenUpStart),
    ensures
        ({
            let (p, rest) = match k {
                BlockKey::Move { path, point } => (path, "_pt_"@ + decimal(point as nat) + "_move"@),
                BlockKey::PenDown { path } => (path, "_pd"@),
                BlockKey::PenUp { path } => (path, "_pu"@),
                _ => (0usize, Seq::empty()),
            };
            &&& key_id(k) == "path_"@ + (decimal(p as nat) + rest)
            &&& rest.len() > 0 && rest[0] == '_'
        }),
{
    reveal_strlit("_pt_");
    reveal_strlit("_pd");
    reveal_strlit("_pu");
    match k {
        BlockKey::Move { path, point } => {
            assert(key_id(k) =~= "path_"@ + (decimal(path as nat) + ("_pt_"@ + decimal(point as nat) + "_move"@)));
        },
        BlockKey::PenDown { path } => {
            assert(key_id(k) =~= "path_"@ + (decimal(path as nat) + "_pd"@));
        },
        BlockKey::PenUp { path } => {
            assert(key_id(k) =~= "path_"@ + (decimal(path as nat) + "_pu"@));
        },
        _ => {},
    }
}

/// Every block of the script has an identifier of its own: distinct
/// blocks never share one.
pub proof fn law_block_ids_distinct(a: BlockKey, b: BlockKey)
    requires
        a != b,
    ensures
        key_id(a) != key_id(b),
{
    reveal_strlit("start");
    reveal_strlit("clear");
    reveal_strlit("pu_start");
    reveal_strlit("path_");
    reveal_strlit("_pt_");
    reveal_strlit("_move");
    reveal_strlit("_pd");
    reveal_strlit("_pu");
    if key_id(a) == key_id(b) {
        let ia = key_id(a);
        let fixed_a = a is Start || a is Clear || a is PenUpStart;
        let fixed_b = b is Start || b is Clear || b is PenUpStart;
        if !fixed_a {
            lemma_path_id_split(a);
            assert(ia[0] == 'p' && ia[1] == 'a');
        }
        if !fixed_b {
            lemma_path_id_split(b);
            assert(key_id(b)[0] == 'p' && key_id(b)[1] == 'a');
        }
        if fixed_a || fixed_b {
            assert(ia[0] == key_id(b)[0]);
            assert(ia[1] == key_id(b)[1]);
            assert(false);
        } else {
            let pre = "path_"@;
            let (pa, ra) = match a {
                BlockKey::Move { path, point } => (path, "_pt_"@ + decimal(point as nat) + "_move"@),
                BlockKey::PenDown { path } => (path, "_pd"@),
                BlockKey::PenUp { path } => (path, "_pu"@),
                _ => (0usize, Seq::empty()),
            };
            let (pb, rb) = match b {
                BlockKey::Move { path, point } => (path, "_pt_"@ + decimal(point as nat) + "_move"@),
                BlockKey::PenDown { path } => (path, "_pd"@),
                BlockKey::PenUp { path } => (path, "_pu"@),
                _ => (0usize, Seq::empty()),
            };
            assert(decimal(pa as nat) + ra =~= ia.subrange(pre.len() as int, ia.len() as int));
            assert(decimal(pb as nat) + rb =~= key_id(b).subrange(pre.len() as int, key_id(b).len() as int));
            lemma_decimal_digits(pa as nat);
            lemma_decimal_digits(pb as nat);
            lemma_digits_then_underscore(decimal(pa as nat), ra, decimal(pb as nat), rb);
            crate::svg_text::lemma_decimal_injective(pa as nat, pb as nat);
            assert(ra[1] == rb[1] && ra[2] == rb[2]);
            match (a, b) {
                (BlockKey::Move { path: _, point: i }, BlockKey::Move { path: _, point: j }) => {
                    let t = "_pt_"@;
                    let m = "_move"@;
                    assert(ra.subrange(t.len() as int, ra.len() as int) =~= decimal(i as nat) + m);
                    assert(rb.subrange(t.len() as int, rb.len() as int) =~= decimal(j as nat) + m);
                    lemma_decimal_digits(i as nat);
                    lemma_decimal_digits(j as nat);
                    lemma_digits_then_underscore(decimal(i as nat), m, decimal(j as nat), m);
                    crate::svg_text::lemma_decimal_injective(i as nat, j as nat);
                },
                _ => {},
            }
        }
    }
}

} // verus!
