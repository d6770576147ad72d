//! Cloud-Optimized GeoTIFF (COG) metadata: the TIFF header, the chain of image file
//! directories (IFDs) and the tile tables of each overview level, read from the bytes
//! of a file.

use vstd::prelude::*;

verus! {

/// Errors while reading COG data.
#[derive(Debug, Clone, Copy, PartialEq, Eq, Structural)]
pub enum CogError {
    /// The data ends before a field that has to be read.
    UnexpectedEof,
    /// The file does not start with a TIFF header.
    InvalidHeader,
    /// The compression scheme is not supported.
    UnsupportedCompression(u16),
    /// No tile at this index.
    TileNotFound(usize),
    /// An IFD offset is not valid.
    InvalidIfd,
}

/// TIFF byte order.
#[derive(Debug, Clone, Copy, PartialEq, Eq, Structural)]
pub enum ByteOrder {
    LittleEndian,
    BigEndian,
}

/// Image File Directory entry.
#[derive(Debug, Clone, Copy, PartialEq, Eq, Structural)]
pub struct IfdEntry {
    pub tag: u16,
    pub data_type: u16,
    pub count: u32,
    pub value_offset: u32,
}

/// COG overview level metadata.
#[derive(Debug, Clone)]
pub struct OverviewLevel {
    /// IFD index (0 = full resolution).
    pub level: usize,
    /// Image width at this level.
    pub width: u32,
    /// Image height at this level.
    pub height: u32,
    /// Tile width.
    pub tile_width: u32,
    /// Tile height.
    pub tile_height: u32,
    /// Number of tiles in X.
    pub tiles_across: u32,
    /// Number of tiles in Y.
    pub tiles_down: u32,
    /// Byte offsets of each tile.
    pub tile_offsets: Vec<u64>,
    /// Byte lengths of each tile.
    pub tile_byte_counts: Vec<u64>,
}

/// COG file metadata (parsed from IFDs).
#[derive(Debug, Clone)]
pub struct CogMetadata {
    /// Overview levels (index 0 = full resolution).
    pub levels: Vec<OverviewLevel>,
    /// Number of bands/samples.
    pub samples_per_pixel: u16,
    /// Bits per sample.
    pub bits_per_sample: u16,
    /// Compression type.
    pub compression: u16,
}

/// What reading the metadata of a file comes to.
#[derive(Debug)]
pub enum CogParseOutcome {
    /// The IFD chain ended (next offset 0), or reading stopped at an error.
    Parsed(Result<CogMetadata, CogError>),
    /// An IFD gives a tile width or height of 0: the tile grid is undefined.
    ZeroTileSize,
    /// The IFD chain does not end: after as many IFDs as the file has bytes it has come back
    /// to an IFD it visited (see `lemma_ifd_budget_suffices`).
    EndlessChain,
}

// ---------------------------------------------------------------------------
// The mathematical model of the format.
// ---------------------------------------------------------------------------

/// An overview level, as mathematical values.
#[verifier::ext_equal]
pub struct LevelView {
    pub level: nat,
    pub width: u32,
    pub height: u32,
    pub tile_width: u32,
    pub tile_height: u32,
    pub tiles_across: u32,
    pub tiles_down: u32,
    pub tile_offsets: Seq<u64>,
    pub tile_byte_counts: Seq<u64>,
}

/// COG metadata, as mathematical values.
#[verifier::ext_equal]
pub struct CogMetadataView {
    pub levels: Seq<LevelView>,
    pub samples_per_pixel: u16,
    pub bits_per_sample: u16,
    pub compression: u16,
}

/// What reading the metadata of some bytes comes to.
pub enum CogParse {
    Parsed(Result<CogMetadataView, CogError>),
    ZeroTileSize,
    EndlessChain,
}

/// The fields gathered from the entries of one IFD, with the file-wide sample fields
/// (which later IFDs may overwrite).
#[verifier::ext_equal]
pub struct IfdFields {
    pub width: u32,
    pub height: u32,
    pub tile_width: u32,
    pub tile_height: u32,
    pub tile_offsets: Seq<u64>,
    pub tile_byte_counts: Seq<u64>,
    pub samples_per_pixel: u16,
    pub bits_per_sample: u16,
    pub compression: u16,
}

/// One step along the IFD chain.
pub enum IfdStep {
    Failed(CogError),
    ZeroTileSize,
    Parsed(IfdFields, u32),
}

impl OverviewLevel {
    pub open spec fn view(&self) -> LevelView {
        LevelView {
            level: self.level as nat,
            width: self.width,
            height: self.height,
            tile_width: self.tile_width,
            tile_height: self.tile_height,
            tiles_across: self.tiles_across,
            tiles_down: self.tiles_down,
            tile_offsets: self.tile_offsets@,
            tile_byte_counts: self.tile_byte_counts@,
        }
    }
}

pub open spec fn levels_view(levels: Seq<OverviewLevel>) -> Seq<LevelView> {
    levels.map_values(|l: OverviewLevel| l.view())
}

impl CogMetadata {
    pub open spec fn view(&self) -> CogMetadataView {
        CogMetadataView {
            levels: levels_view(self.levels@),
            samples_per_pixel: self.samples_per_pixel,
            bits_per_sample: self.bits_per_sample,
            compression: self.compression,
        }
    }
}

pub open spec fn result_view(r: Result<CogMetadata, CogError>) -> Result<CogMetadataView, CogError> {
    match r {
        Ok(m) => Ok(m.view()),
        Err(e) => Err(e),
    }
}

impl CogParseOutcome {
    pub open spec fn view(&self) -> CogParse {
        match self {
            CogParseOutcome::Parsed(r) => CogParse::Parsed(result_view(*r)),
            CogParseOutcome::ZeroTileSize => CogParse::ZeroTileSize,
            CogParseOutcome::EndlessChain => CogParse::EndlessChain,
        }
    }
}

/// The 16-bit unsigned integer stored at `p` in byte order `order`.
pub open spec fn spec_u16(d: Seq<u8>, p: int, order: ByteOrder) -> u16 {
    match order {
        ByteOrder::LittleEndian => (d[p] + 256 * d[p + 1]) as u16,
        ByteOrder::BigEndian => (256 * d[p] + d[p + 1]) as u16,
    }
}

/// The 32-bit unsigned integer stored at `p` in byte order `order`.
pub open spec fn spec_u32(d: Seq<u8>, p: int, order: ByteOrder) -> u32 {
    match order {
        ByteOrder::LittleEndian => (d[p] + 0x100 * d[p + 1] + 0x1_0000 * d[p + 2] + 0x100_0000 * d[p
            + 3]) as u32,
        ByteOrder::BigEndian => (0x100_0000 * d[p] + 0x1_0000 * d[p + 1] + 0x100 * d[p + 2] + d[p
            + 3]) as u32,
    }
}

/// The 64-bit unsigned integer stored at `p` in byte order `order`.
pub open spec fn spec_u64(d: Seq<u8>, p: int, order: ByteOrder) -> u64 {
    match order {
        ByteOrder::LittleEndian => (d[p] + 0x100 * d[p + 1] + 0x1_0000 * d[p + 2] + 0x100_0000 * d[p
            + 3] + 0x1_0000_0000 * d[p + 4] + 0x100_0000_0000 * d[p + 5] + 0x1_0000_0000_0000 * d[p
            + 6] + 0x100_0000_0000_0000 * d[p + 7]) as u64,
        ByteOrder::BigEndian => (0x100_0000_0000_0000 * d[p] + 0x1_0000_0000_0000 * d[p + 1]
            + 0x100_0000_0000 * d[p + 2] + 0x1_0000_0000 * d[p + 3] + 0x100_0000 * d[p + 4]
            + 0x1_0000 * d[p + 5] + 0x100 * d[p + 6] + d[p + 7]) as u64,
    }
}

/// The IFD entry stored at `p`: tag, field type, count and value (or value offset).
pub open spec fn spec_entry(d: Seq<u8>, p: int, order: ByteOrder) -> IfdEntry {
    IfdEntry {
        tag: spec_u16(d, p, order),
        data_type: spec_u16(d, p + 2, order),
        count: spec_u32(d, p + 4, order),
        value_offset: spec_u32(d, p + 8, order),
    }
}

/// The size in bytes of one element of an offset array of TIFF field type `data_type`:
/// SHORT (3) has 2, LONG (4) has 4, LONG8 (16) has 8, and any other type is read as LONG.
pub open spec fn bytes_per_entry(data_type: u16) -> nat {
    if data_type == 3 {
        2
    } else if data_type == 16 {
        8
    } else {
        4
    }
}

/// One element of an offset array, `width` bytes wide, stored at `p`.
pub open spec fn spec_offset_value(d: Seq<u8>, p: int, width: nat, order: ByteOrder) -> u64 {
    if width == 2 {
        spec_u16(d, p, order) as u64
    } else if width == 4 {
        spec_u32(d, p, order) as u64
    } else {
        spec_u64(d, p, order)
    }
}

/// Reading `remaining` elements of `width` bytes, one after the other from `pos`: the values,
/// or `UnexpectedEof` at the first element that does not fit in the data.
pub open spec fn offsets_from(d: Seq<u8>, order: ByteOrder, pos: nat, remaining: nat, width: nat) -> Result<
    Seq<u64>,
    CogError,
>
    decreases remaining,
{
    if remaining == 0 {
        Ok(seq![])
    } else if pos + width > d.len() {
        Err(CogError::UnexpectedEof)
    } else {
        match offsets_from(d, order, pos + width, (remaining - 1) as nat, width) {
            Ok(rest) => Ok(seq![spec_offset_value(d, pos as int, width, order)] + rest),
            Err(e) => Err(e),
        }
    }
}

/// The offset array of an entry: a count of 1 holds the value itself; otherwise `count`
/// elements are stored from `value_offset` on.
pub open spec fn spec_offset_array(
    d: Seq<u8>,
    order: ByteOrder,
    value_offset: u32,
    count: u32,
    data_type: u16,
) -> Result<Seq<u64>, CogError> {
    if count == 1 {
        Ok(seq![value_offset as u64])
    } else {
        offsets_from(d, order, value_offset as nat, count as nat, bytes_per_entry(data_type))
    }
}

/// What one IFD entry does to the fields gathered so far. Tags that are not listed are skipped.
pub open spec fn apply_entry(d: Seq<u8>, order: ByteOrder, f: IfdFields, e: IfdEntry) -> Result<
    IfdFields,
    CogError,
> {
    if e.tag == 256 {
        Ok(IfdFields { width: e.value_offset, ..f })
    } else if e.tag == 257 {
        Ok(IfdFields { height: e.value_offset, ..f })
    } else if e.tag == 258 {
        Ok(IfdFields { bits_per_sample: e.value_offset as u16, ..f })
    } else if e.tag == 259 {
        Ok(IfdFields { compression: e.value_offset as u16, ..f })
    } else if e.tag == 277 {
        Ok(IfdFields { samples_per_pixel: e.value_offset as u16, ..f })
    } else if e.tag == 322 {
        Ok(IfdFields { tile_width: e.value_offset, ..f })
    } else if e.tag == 323 {
        Ok(IfdFields { tile_height: e.value_offset, ..f })
    } else if e.tag == 324 {
        match spec_offset_array(d, order, e.value_offset, e.count, e.data_type) {
            Ok(v) => Ok(IfdFields { tile_offsets: v, ..f }),
            Err(x) => Err(x),
        }
    } else if e.tag == 325 {
        match spec_offset_array(d, order, e.value_offset, e.count, e.data_type) {
            Ok(v) => Ok(IfdFields { tile_byte_counts: v, ..f }),
            Err(x) => Err(x),
        }
    } else {
        Ok(f)
    }
}

/// Applying the `remaining` entries stored from `pos` on, 12 bytes each.
pub open spec fn entries_from(d: Seq<u8>, order: ByteOrder, pos: nat, remaining: nat, f: IfdFields) -> Result<
    IfdFields,
    CogError,
>
    decreases remaining,
{
    if remaining == 0 {
        Ok(f)
    } else if pos + 12 > d.len() {
        Err(CogError::UnexpectedEof)
    } else {
        match apply_entry(d, order, f, spec_entry(d, pos as int, order)) {
            Ok(g) => entries_from(d, order, pos + 12, (remaining - 1) as nat, g),
            Err(e) => Err(e),
        }
    }
}

/// The fields an IFD starts from: no size, 256 x 256 tiles, no tile tables, and the
/// sample fields as the earlier IFDs left them.
pub open spec fn initial_fields(spp: u16, bps: u16, comp: u16) -> IfdFields {
    IfdFields {
        width: 0,
        height: 0,
        tile_width: 256,
        tile_height: 256,
        tile_offsets: seq![],
        tile_byte_counts: seq![],
        samples_per_pixel: spp,
        bits_per_sample: bps,
        compression: comp,
    }
}

/// Reading the IFD at `off`: its entry count, its entries, and the offset of the next IFD.
pub open spec fn ifd_step(d: Seq<u8>, order: ByteOrder, off: nat, spp: u16, bps: u16, comp: u16) -> IfdStep {
    if off + 2 > d.len() {
        IfdStep::Failed(CogError::UnexpectedEof)
    } else {
        let n = spec_u16(d, off as int, order);
        match entries_from(d, order, off + 2, n as nat, initial_fields(spp, bps, comp)) {
            Err(e) => IfdStep::Failed(e),
            Ok(f) => if f.tile_width == 0 || f.tile_height == 0 {
                IfdStep::ZeroTileSize
            } else if off + 2 + 12 * n + 4 > d.len() {
                IfdStep::Failed(CogError::UnexpectedEof)
            } else {
                IfdStep::Parsed(f, spec_u32(d, off + 2 + 12 * n, order))
            },
        }
    }
}

/// `a / b` rounded up.
pub open spec fn div_ceil(a: u32, b: u32) -> u32 {
    if a % b == 0 {
        (a / b) as u32
    } else {
        (a / b + 1) as u32
    }
}

/// The overview level described by the fields of an IFD, at index `level`.
pub open spec fn level_of(f: IfdFields, level: nat) -> LevelView {
    LevelView {
        level,
        width: f.width,
        height: f.height,
        tile_width: f.tile_width,
        tile_height: f.tile_height,
        tiles_across: div_ceil(f.width, f.tile_width),
        tiles_down: div_ceil(f.height, f.tile_height),
        tile_offsets: f.tile_offsets,
        tile_byte_counts: f.tile_byte_counts,
    }
}

/// Walking the IFD chain from `off`, with `levels` read so far, for at most `fuel` more IFDs.
pub open spec fn chain_from(
    d: Seq<u8>,
    order: ByteOrder,
    off: u32,
    fuel: nat,
    levels: Seq<LevelView>,
    spp: u16,
    bps: u16,
    comp: u16,
) -> CogParse
    decreases fuel,
{
    if off == 0 {
        CogParse::Parsed(
            Ok(
                CogMetadataView {
                    levels,
                    samples_per_pixel: spp,
                    bits_per_sample: bps,
                    compression: comp,
                },
            ),
        )
    } else if fuel == 0 {
        CogParse::EndlessChain
    } else {
        match ifd_step(d, order, off as nat, spp, bps, comp) {
            IfdStep::Failed(e) => CogParse::Parsed(Err(e)),
            IfdStep::ZeroTileSize => CogParse::ZeroTileSize,
            IfdStep::Parsed(f, next) => chain_from(
                d,
                order,
                next,
                (fuel - 1) as nat,
                levels.push(level_of(f, levels.len())),
                f.samples_per_pixel,
                f.bits_per_sample,
                f.compression,
            ),
        }
    }
}

/// Reading COG metadata from the bytes `d`, walking at most `fuel` IFDs.
///
/// The 8-byte header holds the byte order (`II` little-endian, `MM` big-endian), the magic
/// number 42 and the offset of the first IFD. The chain of IFDs is then walked until an
/// IFD gives 0 as the next offset.
pub open spec fn parse_cog_within(d: Seq<u8>, fuel: nat) -> CogParse {
    if d.len() < 8 {
        CogParse::Parsed(Err(CogError::UnexpectedEof))
    } else if !((d[0] == 0x49 && d[1] == 0x49) || (d[0] == 0x4d && d[1] == 0x4d)) {
        CogParse::Parsed(Err(CogError::InvalidHeader))
    } else {
        let order = if d[0] == 0x49 {
            ByteOrder::LittleEndian
        } else {
            ByteOrder::BigEndian
        };
        if spec_u16(d, 2, order) != 42 {
            CogParse::Parsed(Err(CogError::InvalidHeader))
        } else {
            chain_from(d, order, spec_u32(d, 4, order), fuel, seq![], 1, 8, 1)
        }
    }
}

/// What reading COG metadata from the bytes `d` comes to.
///
/// An IFD starts at an offset of at least 1 and needs 2 bytes there, so a chain has fewer
/// than `d.len()` distinct IFDs, and a walk of `d.len()` IFDs decides the outcome: with
/// any larger budget it comes to the same (`lemma_ifd_budget_suffices`).
pub open spec fn spec_parse_cog(d: Seq<u8>) -> CogParse {
    parse_cog_within(d, d.len())
}

// ---------------------------------------------------------------------------
// The budget of IFDs.
// ---------------------------------------------------------------------------

/// Where the IFD at `off` leads: the offset of the next IFD, when the IFD reads without an
/// error and gives a tile grid.
pub open spec fn next_ifd(d: Seq<u8>, order: ByteOrder, off: u32) -> Option<u32> {
    match ifd_step(d, order, off as nat, 1, 8, 1) {
        IfdStep::Parsed(_, next) => Some(next),
        _ => None,
    }
}

/// The offset reached after `k` steps along the IFD chain from `off`; `None` once the chain
/// has ended (offset 0) or stopped at an IFD that does not lead on.
pub open spec fn ifd_after(d: Seq<u8>, order: ByteOrder, off: u32, k: nat) -> Option<u32>
    decreases k,
{
    if k == 0 {
        Some(off)
    } else if off == 0 {
        None
    } else {
        match next_ifd(d, order, off) {
            Some(next) => ifd_after(d, order, next, (k - 1) as nat),
            None => None,
        }
    }
}

/// The walk from `off` goes on for (at least) `fuel` steps: every offset it reaches up to
/// then is that of an IFD.
pub open spec fn runs_for(d: Seq<u8>, order: ByteOrder, off: u32, fuel: nat) -> bool {
    forall|k: nat| k <= fuel ==> (#[trigger] ifd_after(d, order, off, k) matches Some(x) && x != 0)
}

proof fn lemma_entries_indep(
    d: Seq<u8>,
    order: ByteOrder,
    pos: nat,
    remaining: nat,
    f1: IfdFields,
    f2: IfdFields,
)
    requires
        f1.tile_width == f2.tile_width,
        f1.tile_height == f2.tile_height,
    ensures
        entries_from(d, order, pos, remaining, f1) is Ok <==> entries_from(d, order, pos, remaining, f2) is Ok,
        entries_from(d, order, pos, remaining, f1) is Err ==> entries_from(d, order, pos, remaining, f1)
            == entries_from(d, order, pos, remaining, f2),
        entries_from(d, order, pos, remaining, f1) is Ok ==> {
            &&& entries_from(d, order, pos, remaining, f1)->Ok_0.tile_width == entries_from(
                d,
                order,
                pos,
                remaining,
                f2,
            )->Ok_0.tile_width
            &&& entries_from(d, order, pos, remaining, f1)->Ok_0.tile_height == entries_from(
                d,
                order,
                pos,
                remaining,
                f2,
            )->Ok_0.tile_height
        },
    decreases remaining,
{
    if remaining > 0 && pos + 12 <= d.len() {
        let e = spec_entry(d, pos as int, order);
        let a1 = apply_entry(d, order, f1, e);
        let a2 = apply_entry(d, order, f2, e);
        assert(a1 is Ok <==> a2 is Ok);
        if a1 is Ok {
            assert(a1->Ok_0.tile_width == a2->Ok_0.tile_width);
            assert(a1->Ok_0.tile_height == a2->Ok_0.tile_height);
            lemma_entries_indep(d, order, pos + 12, (remaining - 1) as nat, a1->Ok_0, a2->Ok_0);
        } else {
            assert(a1 == a2);
        }
    }
}

/// Whether an IFD leads on, and where, does not depend on the sample fields that earlier
/// IFDs set.
proof fn lemma_step_indep(d: Seq<u8>, order: ByteOrder, off: u32, spp: u16, bps: u16, comp: u16)
    ensures
        match ifd_step(d, order, off as nat, spp, bps, comp) {
            IfdStep::Parsed(_, next) => next_ifd(d, order, off) == Some(next),
            _ => next_ifd(d, order, off) is None,
        },
        next_ifd(d, order, off) is Some ==> off + 2 <= d.len(),
{
    if off + 2 <= d.len() {
        let n = spec_u16(d, off as int, order);
        lemma_entries_indep(
            d,
            order,
            (off + 2) as nat,
            n as nat,
            initial_fields(spp, bps, comp),
            initial_fields(1, 8, 1),
        );
    }
}

/// The walk of `chain_from` runs out of budget exactly when the chain goes on for the
/// whole budget.
proof fn lemma_chain_endless(
    d: Seq<u8>,
    order: ByteOrder,
    off: u32,
    fuel: nat,
    levels: Seq<LevelView>,
    spp: u16,
    bps: u16,
    comp: u16,
)
    ensures
        chain_from(d, order, off, fuel, levels, spp, bps, comp) is EndlessChain <==> runs_for(
            d,
            order,
            off,
            fuel,
        ),
    decreases fuel,
{
    if off == 0 {
        assert(ifd_after(d, order, off, 0) == Some(0u32));
    } else if fuel == 0 {
        assert forall|k: nat| k <= fuel implies (#[trigger] ifd_after(d, order, off, k) matches Some(x)
            && x != 0) by {}
    } else {
        lemma_step_indep(d, order, off, spp, bps, comp);
        match ifd_step(d, order, off as nat, spp, bps, comp) {
            IfdStep::Parsed(f, next) => {
                lemma_chain_endless(
                    d,
                    order,
                    next,
                    (fuel - 1) as nat,
                    levels.push(level_of(f, levels.len())),
                    f.samples_per_pixel,
                    f.bits_per_sample,
                    f.compression,
                );
                if runs_for(d, order, next, (fuel - 1) as nat) {
                    assert forall|k: nat| k <= fuel implies (#[trigger] ifd_after(d, order, off, k) matches Some(
                        x,
                    ) && x != 0) by {
                        if k > 0 {
                            assert(ifd_after(d, order, off, k) == ifd_after(d, order, next, (k - 1) as nat));
                        }
                    }
                }
                if runs_for(d, order, off, fuel) {
                    assert forall|k: nat| k <= (fuel - 1) as nat implies (#[trigger] ifd_after(
                        d,
                        order,
                        next,
                        k,
                    ) matches Some(x) && x != 0) by {
                        assert(ifd_after(d, order, off, k + 1) == ifd_after(d, order, next, k));
                    }
                }
            },
            _ => {
                assert(ifd_after(d, order, off, 1) is None);
            },
        }
    }
}

/// Walking `a + b` steps is walking `a` steps, then `b` more from where they led.
proof fn lemma_ifd_after_compose(d: Seq<u8>, order: ByteOrder, off: u32, a: nat, b: nat)
    ensures
        ifd_after(d, order, off, a + b) == match ifd_after(d, order, off, a) {
            Some(x) => ifd_after(d, order, x, b),
            None => None,
        },
    decreases a,
{
    if a > 0 && off != 0 {
        match next_ifd(d, order, off) {
            Some(next) => {
                lemma_ifd_after_compose(d, order, next, (a - 1) as nat, b);
                assert((a + b - 1) as nat == (a - 1) as nat + b);
            },
            None => {},
        }
    }
}

/// Among `n` values in `[lo, hi)`, with fewer than `n` numbers in that range, two are equal.
proof fn lemma_pigeonhole(f: spec_fn(int) -> int, n: int, lo: int, hi: int) -> (r: (int, int))
    requires
        0 <= hi - lo < n,
        forall|i: int| 0 <= i < n ==> lo <= #[trigger] f(i) < hi,
    ensures
        0 <= r.0 < r.1 < n,
        f(r.0) == f(r.1),
{
    let dom = vstd::set_lib::set_int_range(0, n);
    let range = vstd::set_lib::set_int_range(lo, hi);
    vstd::set_lib::lemma_int_range(0, n);
    vstd::set_lib::lemma_int_range(lo, hi);
    let img = dom.map(f);
    assert(img.subset_of(range)) by {
        assert forall|v: int| img.contains(v) implies range.contains(v) by {
            let i = choose|i: int| dom.contains(i) && f(i) == v;
        }
    }
    if vstd::relations::injective_on(f, dom) {
        vstd::set_lib::lemma_map_size(dom, img, f);
        vstd::set_lib::lemma_len_subset(img, range);
        assert(false);
    }
    let (i, j) = choose|i: int, j: int| dom.contains(i) && dom.contains(j) && f(i) == f(j) && i != j;
    if i < j {
        (i, j)
    } else {
        (j, i)
    }
}

/// A walk that goes on for `d.len()` steps goes on forever: it has come back to an IFD
/// it visited, and from there it goes round the same IFDs again.
proof fn lemma_runs_forever(d: Seq<u8>, order: ByteOrder, off: u32, fuel: nat)
    requires
        d.len() > 0,
        runs_for(d, order, off, d.len()),
    ensures
        runs_for(d, order, off, fuel),
{
    let n = d.len() as int;
    let x = |k: int| ifd_after(d, order, off, k as nat)->Some_0 as int;
    assert forall|k: int| 0 <= k < n implies 1 <= #[trigger] x(k) < n - 1 by {
        let xk = ifd_after(d, order, off, k as nat)->Some_0;
        assert(ifd_after(d, order, off, k as nat) matches Some(v) && v != 0);
        assert(ifd_after(d, order, off, (k + 1) as nat) matches Some(v) && v != 0);
        lemma_ifd_after_compose(d, order, off, k as nat, 1);
        assert(ifd_after(d, order, xk, 1) is Some);
        assert(next_ifd(d, order, xk) is Some);
        lemma_step_indep(d, order, xk, 1, 8, 1);
    }
    assert(1 <= x(0) < n - 1);
    let (i, j) = lemma_pigeonhole(x, n, 1, n - 1);
    let xi = ifd_after(d, order, off, i as nat)->Some_0;
    assert(ifd_after(d, order, off, i as nat) matches Some(v) && v != 0);
    assert(ifd_after(d, order, off, j as nat) matches Some(v) && v != 0);
    lemma_ifd_after_compose(d, order, off, i as nat, (j - i) as nat);
    assert(ifd_after(d, order, xi, (j - i) as nat) == Some(xi));
    assert forall|k: nat| k <= fuel implies (#[trigger] ifd_after(d, order, off, k) matches Some(v)
        && v != 0) by {
        if k > i {
            lemma_cycle_runs(d, order, off, i as nat, (j - i) as nat, xi, (k - i) as nat);
            lemma_ifd_after_compose(d, order, off, i as nat, (k - i) as nat);
        }
    }
}

/// From an IFD `x` reached after `i` steps, to which the walk comes back after `p` more steps
/// with no offset 0 in between, the walk goes on forever.
proof fn lemma_cycle_runs(d: Seq<u8>, order: ByteOrder, off: u32, i: nat, p: nat, x: u32, m: nat)
    requires
        p > 0,
        ifd_after(d, order, off, i) == Some(x),
        ifd_after(d, order, x, p) == Some(x),
        forall|k: nat| k <= i + p ==> (#[trigger] ifd_after(d, order, off, k) matches Some(v) && v != 0),
    ensures
        ifd_after(d, order, x, m) matches Some(v) && v != 0,
    decreases m,
{
    if m < p {
        lemma_ifd_after_compose(d, order, off, i, m);
        assert(ifd_after(d, order, off, i + m) matches Some(v) && v != 0);
    } else {
        lemma_ifd_after_compose(d, order, x, p, (m - p) as nat);
        lemma_cycle_runs(d, order, off, i, p, x, (m - p) as nat);
        assert(p + (m - p) as nat == m);
    }
}

/// A walk that ends within its budget ends the same way with a larger budget.
proof fn lemma_chain_more_fuel(
    d: Seq<u8>,
    order: ByteOrder,
    off: u32,
    fuel: nat,
    more: nat,
    levels: Seq<LevelView>,
    spp: u16,
    bps: u16,
    comp: u16,
)
    requires
        !(chain_from(d, order, off, fuel, levels, spp, bps, comp) is EndlessChain),
        more >= fuel,
    ensures
        chain_from(d, order, off, more, levels, spp, bps, comp) == chain_from(
            d,
            order,
            off,
            fuel,
            levels,
            spp,
            bps,
            comp,
        ),
    decreases fuel,
{
    if off != 0 && fuel > 0 {
        match ifd_step(d, order, off as nat, spp, bps, comp) {
            IfdStep::Parsed(f, next) => {
                lemma_chain_more_fuel(
                    d,
                    order,
                    next,
                    (fuel - 1) as nat,
                    (more - 1) as nat,
                    levels.push(level_of(f, levels.len())),
                    f.samples_per_pixel,
                    f.bits_per_sample,
                    f.compression,
                );
            },
            _ => {},
        }
    }
}

/// A budget of `d.len()` IFDs decides the walk: with any larger budget, reading the
/// metadata of `d` comes to the same. In particular a chain that has not ended after
/// `d.len()` IFDs never ends.
pub proof fn lemma_ifd_budget_suffices(d: Seq<u8>, fuel: nat)
    requires
        fuel >= d.len(),
    ensures
        parse_cog_within(d, fuel) == spec_parse_cog(d),
{
    if d.len() >= 8 && ((d[0] == 0x49 && d[1] == 0x49) || (d[0] == 0x4d && d[1] == 0x4d)) {
        let order = if d[0] == 0x49 {
            ByteOrder::LittleEndian
        } else {
            ByteOrder::BigEndian
        };
        if spec_u16(d, 2, order) == 42 {
            let first = spec_u32(d, 4, order);
            let s = Seq::<LevelView>::empty();
            if chain_from(d, order, first, d.len(), s, 1, 8, 1) is EndlessChain {
                lemma_chain_endless(d, order, first, d.len(), s, 1, 8, 1);
                lemma_runs_forever(d, order, first, fuel);
                lemma_chain_endless(d, order, first, fuel, s, 1, 8, 1);
            } else {
                lemma_chain_more_fuel(d, order, first, d.len(), fuel, s, 1, 8, 1);
            }
        }
    }
}

/// Each level carries its own index and a tile grid with nonzero tile sides, with as many
/// tiles across and down as cover the image.
pub open spec fn levels_numbered(levels: Seq<LevelView>) -> bool {
    forall|i: int|
        0 <= i < levels.len() ==> {
            let l = #[trigger] levels[i];
            &&& l.level == i
            &&& l.tile_width > 0
            &&& l.tile_height > 0
            &&& l.tiles_across == div_ceil(l.width, l.tile_width)
            &&& l.tiles_down == div_ceil(l.height, l.tile_height)
        }
}

proof fn lemma_chain_levels(
    d: Seq<u8>,
    order: ByteOrder,
    off: u32,
    fuel: nat,
    levels: Seq<LevelView>,
    spp: u16,
    bps: u16,
    comp: u16,
)
    requires
        levels_numbered(levels),
    ensures
        chain_from(d, order, off, fuel, levels, spp, bps, comp) matches CogParse::Parsed(Ok(m))
            ==> levels_numbered(m.levels),
    decreases fuel,
{
    if off != 0 && fuel > 0 {
        match ifd_step(d, order, off as nat, spp, bps, comp) {
            IfdStep::Parsed(f, next) => {
                let ls = levels.push(level_of(f, levels.len()));
                assert(levels_numbered(ls)) by {
                    assert forall|i: int| 0 <= i < ls.len() implies {
                        let l = #[trigger] ls[i];
                        &&& l.level == i
                        &&& l.tile_width > 0
                        &&& l.tile_height > 0
                        &&& l.tiles_across == div_ceil(l.width, l.tile_width)
                        &&& l.tiles_down == div_ceil(l.height, l.tile_height)
                    } by {
                        if i < levels.len() {
                            assert(ls[i] == levels[i]);
                        }
                    }
                }
                lemma_chain_levels(
                    d,
                    order,
                    next,
                    (fuel - 1) as nat,
                    ls,
                    f.samples_per_pixel,
                    f.bits_per_sample,
                    f.compression,
                );
            },
            _ => {},
        }
    }
}

/// The levels of parsed metadata are numbered from 0 in the order of the IFD chain, and
/// each has a tile grid with nonzero tile sides whose tiles cover the image: `tiles_across`
/// is the width divided by the tile width, rounded up, and likewise down.
pub proof fn lemma_parsed_levels(d: Seq<u8>)
    ensures
        spec_parse_cog(d) matches CogParse::Parsed(Ok(m)) ==> levels_numbered(m.levels),
{
    if d.len() >= 8 && ((d[0] == 0x49 && d[1] == 0x49) || (d[0] == 0x4d && d[1] == 0x4d)) {
        let order = if d[0] == 0x49 {
            ByteOrder::LittleEndian
        } else {
            ByteOrder::BigEndian
        };
        if spec_u16(d, 2, order) == 42 {
            lemma_chain_levels(d, order, spec_u32(d, 4, order), d.len(), seq![], 1, 8, 1);
        }
    }
}

/// The byte order that the header of `d` names (`II` little-endian, otherwise big-endian).
pub open spec fn header_order(d: Seq<u8>) -> ByteOrder {
    if d[0] == 0x49 {
        ByteOrder::LittleEndian
    } else {
        ByteOrder::BigEndian
    }
}

/// Among the `remaining` entries stored from `pos` on, 12 bytes each, one has tag `tag`.
pub open spec fn entries_have_tag(d: Seq<u8>, order: ByteOrder, pos: nat, remaining: nat, tag: u16) -> bool
    decreases remaining,
{
    remaining > 0 && (spec_entry(d, pos as int, order).tag == tag || entries_have_tag(
        d,
        order,
        pos + 12,
        (remaining - 1) as nat,
        tag,
    ))
}

/// The IFD at `off` has an entry with tag `tag`.
pub open spec fn ifd_has_tag(d: Seq<u8>, order: ByteOrder, off: u32, tag: u16) -> bool {
    entries_have_tag(d, order, (off + 2) as nat, spec_u16(d, off as int, order) as nat, tag)
}

/// A level read from the IFD at `off` has the default tile width (or height) of 256 where
/// that IFD has no TileWidth (322) (or TileLength (323)) entry.
pub open spec fn tile_defaults(d: Seq<u8>, order: ByteOrder, off: u32, l: LevelView) -> bool {
    &&& !ifd_has_tag(d, order, off, 322) ==> l.tile_width == 256
    &&& !ifd_has_tag(d, order, off, 323) ==> l.tile_height == 256
}

proof fn lemma_entries_keep_tile(d: Seq<u8>, order: ByteOrder, pos: nat, remaining: nat, f: IfdFields)
    ensures
        entries_from(d, order, pos, remaining, f) matches Ok(g) ==> {
            &&& !entries_have_tag(d, order, pos, remaining, 322) ==> g.tile_width == f.tile_width
            &&& !entries_have_tag(d, order, pos, remaining, 323) ==> g.tile_height == f.tile_height
        },
    decreases remaining,
{
    if remaining > 0 && pos + 12 <= d.len() {
        let e = spec_entry(d, pos as int, order);
        match apply_entry(d, order, f, e) {
            Ok(g) => {
                lemma_entries_keep_tile(d, order, pos + 12, (remaining - 1) as nat, g);
            },
            Err(_) => {},
        }
    }
}

proof fn lemma_chain_per_ifd(
    d: Seq<u8>,
    order: ByteOrder,
    off: u32,
    fuel: nat,
    levels: Seq<LevelView>,
    spp: u16,
    bps: u16,
    comp: u16,
)
    ensures
        chain_from(d, order, off, fuel, levels, spp, bps, comp) matches CogParse::Parsed(Ok(m)) ==> {
            &&& m.levels.len() >= levels.len()
            &&& forall|i: int| 0 <= i < levels.len() ==> #[trigger] m.levels[i] == levels[i]
            &&& ifd_after(d, order, off, (m.levels.len() - levels.len()) as nat) == Some(0u32)
            &&& forall|k: nat|
                k < m.levels.len() - levels.len() ==> (#[trigger] ifd_after(d, order, off, k) matches Some(
                    x,
                ) && x != 0 && tile_defaults(d, order, x, m.levels[levels.len() + k as int]))
        },
    decreases fuel,
{
    if off == 0 {
        assert(ifd_after(d, order, off, 0) == Some(0u32));
    } else if fuel > 0 {
        lemma_step_indep(d, order, off, spp, bps, comp);
        match ifd_step(d, order, off as nat, spp, bps, comp) {
            IfdStep::Parsed(f, next) => {
                let ls = levels.push(level_of(f, levels.len()));
                lemma_chain_per_ifd(
                    d,
                    order,
                    next,
                    (fuel - 1) as nat,
                    ls,
                    f.samples_per_pixel,
                    f.bits_per_sample,
                    f.compression,
                );
                let n = spec_u16(d, off as int, order);
                lemma_entries_keep_tile(
                    d,
                    order,
                    (off + 2) as nat,
                    n as nat,
                    initial_fields(spp, bps, comp),
                );
                match chain_from(
                    d,
                    order,
                    next,
                    (fuel - 1) as nat,
                    ls,
                    f.samples_per_pixel,
                    f.bits_per_sample,
                    f.compression,
                ) {
                    CogParse::Parsed(Ok(m)) => {
                        assert forall|i: int| 0 <= i < levels.len() implies #[trigger] m.levels[i]
                            == levels[i] by {
                            assert(m.levels[i] == ls[i]);
                        }
                        assert(m.levels[levels.len() as int] == ls[levels.len() as int]);
                        let rest = (m.levels.len() - ls.len()) as nat;
                        assert(ifd_after(d, order, off, rest + 1) == ifd_after(d, order, next, rest));
                        assert((m.levels.len() - levels.len()) as nat == rest + 1);
                        assert forall|k: nat| k < m.levels.len() - levels.len() implies (#[trigger] ifd_after(
                            d,
                            order,
                            off,
                            k,
                        ) matches Some(x) && x != 0 && tile_defaults(
                            d,
                            order,
                            x,
                            m.levels[levels.len() + k as int],
                        )) by {
                            if k > 0 {
                                let k1 = (k - 1) as nat;
                                assert(ifd_after(d, order, off, k) == ifd_after(d, order, next, k1));
                                assert(ifd_after(d, order, next, k1) matches Some(x) && x != 0
                                    && tile_defaults(d, order, x, m.levels[ls.len() + k1 as int]));
                                assert(levels.len() + k == ls.len() + k1);
                            }
                        }
                    },
                    _ => {},
                }
            },
            _ => {},
        }
    }
}

/// Parsed metadata has one level per IFD of the chain: walking the chain from the offset
/// in the header, the offset reached after as many steps as there are levels is 0, and each
/// earlier one is the offset of an IFD. A level whose IFD has no TileWidth (322) or no
/// TileLength (323) entry has the default tile width or height of 256.
pub proof fn lemma_parsed_levels_per_ifd(d: Seq<u8>)
    ensures
        spec_parse_cog(d) matches CogParse::Parsed(Ok(m)) ==> {
            let order = header_order(d);
            let first = spec_u32(d, 4, order);
            &&& ifd_after(d, order, first, m.levels.len()) == Some(0u32)
            &&& forall|k: nat|
                k < m.levels.len() ==> (#[trigger] ifd_after(d, order, first, k) matches Some(x) && x
                    != 0 && tile_defaults(d, order, x, m.levels[k as int]))
        },
{
    if d.len() >= 8 && ((d[0] == 0x49 && d[1] == 0x49) || (d[0] == 0x4d && d[1] == 0x4d)) {
        let order = header_order(d);
        if spec_u16(d, 2, order) == 42 {
            let first = spec_u32(d, 4, order);
            lemma_chain_per_ifd(d, order, first, d.len(), seq![], 1, 8, 1);
        }
    }
}

// ---------------------------------------------------------------------------
// Reading.
// ---------------------------------------------------------------------------

fn read_u16(buf: &[u8], at: usize, order: ByteOrder) -> (r: u16)
    requires
        at + 2 <= buf@.len(),
    ensures
        r == spec_u16(buf@, at as int, order),
{
    let b0 = buf[at] as u16;
    let b1 = buf[at + 1] as u16;
    match order {
        ByteOrder::LittleEndian => b0 + 256 * b1,
        ByteOrder::BigEndian => 256 * b0 + b1,
    }
}

fn read_u32(buf: &[u8], at: usize, order: ByteOrder) -> (r: u32)
    requires
        at + 4 <= buf@.len(),
    ensures
        r == spec_u32(buf@, at as int, order),
{
    let b0 = buf[at] as u32;
    let b1 = buf[at + 1] as u32;
    let b2 = buf[at + 2] as u32;
    let b3 = buf[at + 3] as u32;
    match order {
        ByteOrder::LittleEndian => b0 + 0x100 * b1 + 0x1_0000 * b2 + 0x100_0000 * b3,
        ByteOrder::BigEndian => 0x100_0000 * b0 + 0x1_0000 * b1 + 0x100 * b2 + b3,
    }
}

fn read_u64(buf: &[u8], at: usize, order: ByteOrder) -> (r: u64)
    requires
        at + 8 <= buf@.len(),
    ensures
        r == spec_u64(buf@, at as int, order),
{
    let b0 = buf[at] as u64;
    let b1 = buf[at + 1] as u64;
    let b2 = buf[at + 2] as u64;
    let b3 = buf[at + 3] as u64;
    let b4 = buf[at + 4] as u64;
    let b5 = buf[at + 5] as u64;
    let b6 = buf[at + 6] as u64;
    let b7 = buf[at + 7] as u64;
    match order {
        ByteOrder::LittleEndian => b0 + 0x100 * b1 + 0x1_0000 * b2 + 0x100_0000 * b3 + 0x1_0000_0000
            * b4 + 0x100_0000_0000 * b5 + 0x1_0000_0000_0000 * b6 + 0x100_0000_0000_0000 * b7,
        ByteOrder::BigEndian => 0x100_0000_0000_0000 * b0 + 0x1_0000_0000_0000 * b1 + 0x100_0000_0000
            * b2 + 0x1_0000_0000 * b3 + 0x100_0000 * b4 + 0x1_0000 * b5 + 0x100 * b6 + b7,
    }
}

/// Whether `width` bytes fit in `data` from `pos` on.
fn fits(data: &[u8], pos: usize, width: usize) -> (r: bool)
    ensures
        r == (pos + width <= data@.len()),
{
    width <= data.len() && pos <= data.len() - width
}

fn read_ifd_entry(data: &[u8], pos: usize, order: ByteOrder) -> (r: IfdEntry)
    requires
        pos + 12 <= data@.len(),
    ensures
        r == spec_entry(data@, pos as int, order),
{
    let _len = data.len();
    IfdEntry {
        tag: read_u16(data, pos, order),
        data_type: read_u16(data, pos + 2, order),
        count: read_u32(data, pos + 4, order),
        value_offset: read_u32(data, pos + 8, order),
    }
}

/// Read the offset array of an IFD entry (tile offsets or tile byte counts).
fn read_offset_array(
    data: &[u8],
    value_offset: u32,
    count: u32,
    byte_order: ByteOrder,
    data_type: u16,
) -> (r: Result<Vec<u64>, CogError>)
    ensures
        match r {
            Ok(v) => spec_offset_array(data@, byte_order, value_offset, count, data_type) == Ok::<
                Seq<u64>,
                CogError,
            >(v@),
            Err(e) => spec_offset_array(data@, byte_order, value_offset, count, data_type) == Err::<
                Seq<u64>,
                CogError,
            >(e),
        },
{
    if count == 1 {
        let mut v = Vec::new();
        v.push(value_offset as u64);
        return Ok(v);
    }
    let width: usize = if data_type == 3 {
        2
    } else if data_type == 16 {
        8
    } else {
        4
    };
    let ghost w = bytes_per_entry(data_type);
    let ghost total = offsets_from(data@, byte_order, value_offset as nat, count as nat, w);
    let mut offsets: Vec<u64> = Vec::new();
    let mut pos: usize = 0;
    let mut remaining: u32 = count;
    if remaining > 0 {
        if !fits(data, value_offset as usize, 0) {
            return Err(CogError::UnexpectedEof);
        }
        pos = value_offset as usize;
    }
    while remaining > 0
        invariant
            w == width,
            w == bytes_per_entry(data_type),
            count != 1,
            remaining > 0 ==> pos <= data@.len(),
            total == offsets_from(data@, byte_order, value_offset as nat, count as nat, w),
            total == match offsets_from(data@, byte_order, pos as nat, remaining as nat, w) {
                Ok(rest) => Ok(offsets@ + rest),
                Err(e) => Err(e),
            },
        decreases remaining,
    {
        let _len = data.len();
        if !fits(data, pos, width) {
            assert(offsets_from(data@, byte_order, pos as nat, remaining as nat, w) == Err::<
                Seq<u64>,
                CogError,
            >(CogError::UnexpectedEof));
            return Err(CogError::UnexpectedEof);
        }
        let val: u64 = if width == 2 {
            read_u16(data, pos, byte_order) as u64
        } else if width == 4 {
            read_u32(data, pos, byte_order) as u64
        } else {
            read_u64(data, pos, byte_order)
        };
        proof {
            let rest_total = offsets_from(data@, byte_order, (pos + width) as nat, (remaining - 1) as nat, w);
            match rest_total {
                Ok(rest) => {
                    assert(offsets@ + (seq![val] + rest) =~= offsets@.push(val) + rest);
                },
                Err(e) => {},
            }
        }
        offsets.push(val);
        pos = pos + width;
        remaining = remaining - 1;
    }
    proof {
        assert(offsets@ + seq![] =~= offsets@);
    }
    Ok(offsets)
}


/// The fields gathered from one IFD.
struct IfdData {
    width: u32,
    height: u32,
    tile_width: u32,
    tile_height: u32,
    tile_offsets: Vec<u64>,
    tile_byte_counts: Vec<u64>,
    samples_per_pixel: u16,
    bits_per_sample: u16,
    compression: u16,
}

impl IfdData {
    spec fn view(&self) -> IfdFields {
        IfdFields {
            width: self.width,
            height: self.height,
            tile_width: self.tile_width,
            tile_height: self.tile_height,
            tile_offsets: self.tile_offsets@,
            tile_byte_counts: self.tile_byte_counts@,
            samples_per_pixel: self.samples_per_pixel,
            bits_per_sample: self.bits_per_sample,
            compression: self.compression,
        }
    }
}

enum IfdOutcome {
    Failed(CogError),
    ZeroTileSize,
    Parsed(IfdData, u32),
}

impl IfdOutcome {
    spec fn view(&self) -> IfdStep {
        match self {
            IfdOutcome::Failed(e) => IfdStep::Failed(*e),
            IfdOutcome::ZeroTileSize => IfdStep::ZeroTileSize,
            IfdOutcome::Parsed(f, next) => IfdStep::Parsed(f.view(), *next),
        }
    }
}

/// Read the IFD at `off`: its entries and the offset of the next IFD.
fn parse_ifd(data: &[u8], order: ByteOrder, off: u32, spp: u16, bps: u16, comp: u16) -> (r:
    IfdOutcome)
    ensures
        r.view() == ifd_step(data@, order, off as nat, spp, bps, comp),
{
    let _len = data.len();
    if !fits(data, off as usize, 2) {
        return IfdOutcome::Failed(CogError::UnexpectedEof);
    }
    let entry_count = read_u16(data, off as usize, order);
    let mut f = IfdData {
        width: 0,
        height: 0,
        tile_width: 256,
        tile_height: 256,
        tile_offsets: Vec::new(),
        tile_byte_counts: Vec::new(),
        samples_per_pixel: spp,
        bits_per_sample: bps,
        compression: comp,
    };
    let ghost total = entries_from(
        data@,
        order,
        (off + 2) as nat,
        entry_count as nat,
        initial_fields(spp, bps, comp),
    );
    proof {
        assert(f.view() =~= initial_fields(spp, bps, comp));
    }
    let mut pos: usize = off as usize + 2;
    let mut k: u16 = 0;
    while k < entry_count
        invariant
            pos == off + 2 + 12 * k,
            pos <= data@.len(),
            entry_count == spec_u16(data@, off as int, order),
            k <= entry_count,
            total == entries_from(
                data@,
                order,
                (off + 2) as nat,
                entry_count as nat,
                initial_fields(spp, bps, comp),
            ),
            total == entries_from(data@, order, pos as nat, (entry_count - k) as nat, f.view()),
        decreases entry_count - k,
    {
        let _len = data.len();
        if !fits(data, pos, 12) {
            return IfdOutcome::Failed(CogError::UnexpectedEof);
        }
        let e = read_ifd_entry(data, pos, order);
        let ghost before = f.view();
        if e.tag == 256 {
            f.width = e.value_offset;
        } else if e.tag == 257 {
            f.height = e.value_offset;
        } else if e.tag == 258 {
            f.bits_per_sample = #[verifier::truncate] (e.value_offset as u16);
        } else if e.tag == 259 {
            f.compression = #[verifier::truncate] (e.value_offset as u16);
        } else if e.tag == 277 {
            f.samples_per_pixel = #[verifier::truncate] (e.value_offset as u16);
        } else if e.tag == 322 {
            f.tile_width = e.value_offset;
        } else if e.tag == 323 {
            f.tile_height = e.value_offset;
        } else if e.tag == 324 {
            match read_offset_array(data, e.value_offset, e.count, order, e.data_type) {
                Ok(v) => {
                    f.tile_offsets = v;
                },
                Err(x) => {
                    assert(apply_entry(data@, order, before, e) == Err::<IfdFields, CogError>(x));
                    return IfdOutcome::Failed(x);
                },
            }
        } else if e.tag == 325 {
            match read_offset_array(data, e.value_offset, e.count, order, e.data_type) {
                Ok(v) => {
                    f.tile_byte_counts = v;
                },
                Err(x) => {
                    assert(apply_entry(data@, order, before, e) == Err::<IfdFields, CogError>(x));
                    return IfdOutcome::Failed(x);
                },
            }
        }
        assert(apply_entry(data@, order, before, e) == Ok::<IfdFields, CogError>(f.view()));
        pos = pos + 12;
        k = k + 1;
    }
    if f.tile_width == 0 || f.tile_height == 0 {
        return IfdOutcome::ZeroTileSize;
    }
    if !fits(data, pos, 4) {
        return IfdOutcome::Failed(CogError::UnexpectedEof);
    }
    let next = read_u32(data, pos, order);
    IfdOutcome::Parsed(f, next)
}

fn div_ceil_u32(a: u32, b: u32) -> (r: u32)
    requires
        b > 0,
    ensures
        r == div_ceil(a, b),
{
    let q = a / b;
    if a % b == 0 {
        q
    } else {
        assert(a / b < 0xffff_ffff) by (nonlinear_arith)
            requires
                b > 0,
                a % b != 0,
                a <= 0xffff_ffff,
        ;
        q + 1
    }
}

/// Read the metadata of the COG whose bytes are `data`: the header, then each IFD of the
/// chain as an overview level, with the sample fields of the file.
pub fn parse_cog_outcome(data: &[u8]) -> (r: CogParseOutcome)
    ensures
        r.view() == spec_parse_cog(data@),
{
    let len = data.len();
    if len < 8 {
        return CogParseOutcome::Parsed(Err(CogError::UnexpectedEof));
    }
    let order = if data[0] == 0x49 && data[1] == 0x49 {
        ByteOrder::LittleEndian
    } else if data[0] == 0x4d && data[1] == 0x4d {
        ByteOrder::BigEndian
    } else {
        return CogParseOutcome::Parsed(Err(CogError::InvalidHeader));
    };
    let magic = read_u16(data, 2, order);
    if magic != 42 {
        return CogParseOutcome::Parsed(Err(CogError::InvalidHeader));
    }
    let mut ifd_offset = read_u32(data, 4, order);
    let mut levels: Vec<OverviewLevel> = Vec::new();
    let mut samples_per_pixel: u16 = 1;
    let mut bits_per_sample: u16 = 8;
    let mut compression: u16 = 1;
    let mut fuel: usize = len;
    let ghost total = spec_parse_cog(data@);
    proof {
        assert(levels_view(levels@) =~= seq![]);
    }
    loop
        invariant
            total == spec_parse_cog(data@),
            total == chain_from(
                data@,
                order,
                ifd_offset,
                fuel as nat,
                levels_view(levels@),
                samples_per_pixel,
                bits_per_sample,
                compression,
            ),
        decreases fuel,
    {
        if ifd_offset == 0 {
            let meta = CogMetadata { levels, samples_per_pixel, bits_per_sample, compression };
            return CogParseOutcome::Parsed(Ok(meta));
        }
        if fuel == 0 {
            return CogParseOutcome::EndlessChain;
        }
        match parse_ifd(data, order, ifd_offset, samples_per_pixel, bits_per_sample, compression) {
            IfdOutcome::Failed(e) => {
                return CogParseOutcome::Parsed(Err(e));
            },
            IfdOutcome::ZeroTileSize => {
                return CogParseOutcome::ZeroTileSize;
            },
            IfdOutcome::Parsed(f, next) => {
                let tiles_across = div_ceil_u32(f.width, f.tile_width);
                let tiles_down = div_ceil_u32(f.height, f.tile_height);
                let ghost fv = f.view();
                let ghost old_levels = levels@;
                let level = OverviewLevel {
                    level: levels.len(),
                    width: f.width,
                    height: f.height,
                    tile_width: f.tile_width,
                    tile_height: f.tile_height,
                    tiles_across,
                    tiles_down,
                    tile_offsets: f.tile_offsets,
                    tile_byte_counts: f.tile_byte_counts,
                };
                levels.push(level);
                proof {
                    assert(levels_view(levels@) =~= levels_view(old_levels).push(
                        level_of(fv, levels_view(old_levels).len()),
                    ));
                }
                samples_per_pixel = f.samples_per_pixel;
                bits_per_sample = f.bits_per_sample;
                compression = f.compression;
                ifd_offset = next;
                fuel = fuel - 1;
            },
        }
    }
}

/// Parse COG metadata from the bytes of a file.
///
/// `requires` leaves out the files on which the metadata is undefined: an IFD with a
/// tile width or height of 0, or an IFD chain that never ends.
pub fn parse_cog_metadata(data: &[u8]) -> (r: Result<CogMetadata, CogError>)
    requires
        spec_parse_cog(data@) is Parsed,
    ensures
        spec_parse_cog(data@) == CogParse::Parsed(result_view(r)),
{
    match parse_cog_outcome(data) {
        CogParseOutcome::Parsed(r) => r,
        CogParseOutcome::ZeroTileSize => Err(CogError::InvalidIfd),
        CogParseOutcome::EndlessChain => Err(CogError::InvalidIfd),
    }
}


/// Reading tile `tile_index` of overview level `level`: the bytes that its offset and byte
/// count delimit, `TileNotFound` when the level or either table has no such entry, and
/// `UnexpectedEof` when the tile runs past the end of the data. A tile of 0 bytes reads as
/// empty wherever its offset lies.
pub open spec fn spec_read_raw_tile(d: Seq<u8>, m: CogMetadataView, level: int, tile_index: int) -> Result<
    Seq<u8>,
    CogError,
> {
    if level >= m.levels.len() || tile_index >= m.levels[level].tile_offsets.len()
        || tile_index >= m.levels[level].tile_byte_counts.len() {
        Err(CogError::TileNotFound(tile_index as usize))
    } else {
        let offset = m.levels[level].tile_offsets[tile_index];
        let length = m.levels[level].tile_byte_counts[tile_index];
        if length == 0 {
            Ok(seq![])
        } else if offset + length > d.len() {
            Err(CogError::UnexpectedEof)
        } else {
            Ok(d.subrange(offset as int, offset + length))
        }
    }
}

/// Read a raw tile, at a level and tile index, from the bytes of a COG.
///
/// The tile's bytes are gathered into a buffer of the tile's byte count, which has to
/// be a possible allocation size (at most `isize::MAX`).
pub fn read_raw_tile(data: &[u8], metadata: &CogMetadata, level: usize, tile_index: usize) -> (r:
    Result<Vec<u8>, CogError>)
    requires
        level < metadata.levels@.len() && tile_index < metadata.levels@[level as int].tile_offsets@.len()
            && tile_index < metadata.levels@[level as int].tile_byte_counts@.len()
            ==> metadata.levels@[level as int].tile_byte_counts@[tile_index as int] <= isize::MAX,
    ensures
        match r {
            Ok(v) => spec_read_raw_tile(data@, metadata.view(), level as int, tile_index as int)
                == Ok::<Seq<u8>, CogError>(v@),
            Err(e) => spec_read_raw_tile(data@, metadata.view(), level as int, tile_index as int)
                == Err::<Seq<u8>, CogError>(e),
        },
{
    if level >= metadata.levels.len() {
        return Err(CogError::TileNotFound(tile_index));
    }
    let overview = &metadata.levels[level];
    if tile_index >= overview.tile_offsets.len() {
        return Err(CogError::TileNotFound(tile_index));
    }
    if tile_index >= overview.tile_byte_counts.len() {
        return Err(CogError::TileNotFound(tile_index));
    }
    let offset = overview.tile_offsets[tile_index];
    let length = overview.tile_byte_counts[tile_index];
    let len = data.len();
    if length == 0 {
        return Ok(Vec::new());
    }
    if offset > len as u64 || length > len as u64 - offset {
        return Err(CogError::UnexpectedEof);
    }
    let start = offset as usize;
    let end = (offset + length) as usize;
    let mut buf: Vec<u8> = Vec::new();
    let mut i = start;
    while i < end
        invariant
            start <= i <= end,
            end <= data@.len(),
            buf@ == data@.subrange(start as int, i as int),
        decreases end - i,
    {
        buf.push(data[i]);
        i = i + 1;
        proof {
            assert(buf@ =~= data@.subrange(start as int, i as int));
        }
    }
    Ok(buf)
}

/// The tile indices of row `row`, columns `start_col` up to `end_col`: `row * across + col`.
pub open spec fn row_tiles(row: int, start_col: int, end_col: int, across: int) -> Seq<usize> {
    Seq::new(
        if end_col > start_col {
            (end_col - start_col) as nat
        } else {
            0
        },
        |j: int| (row * across + start_col + j) as usize,
    )
}

/// The tile indices of rows `start_row` up to `end_row`, row after row.
pub open spec fn grid_tiles(start_row: int, end_row: int, start_col: int, end_col: int, across: int) -> Seq<
    usize,
>
    decreases end_row - start_row,
{
    if end_row <= start_row {
        seq![]
    } else {
        grid_tiles(start_row, end_row - 1, start_col, end_col, across) + row_tiles(
            end_row - 1,
            start_col,
            end_col,
            across,
        )
    }
}

pub open spec fn min_u32(a: u32, b: u32) -> u32 {
    if a <= b {
        a
    } else {
        b
    }
}

/// The first column and the column bound of the tiles that a bounding box covers.
pub open spec fn bounds_cols(l: LevelView, min_x: u32, max_x: u32) -> (u32, u32) {
    ((min_x / l.tile_width) as u32, min_u32(div_ceil(max_x, l.tile_width), l.tiles_across))
}

/// The first row and the row bound of the tiles that a bounding box covers.
pub open spec fn bounds_rows(l: LevelView, min_y: u32, max_y: u32) -> (u32, u32) {
    ((min_y / l.tile_height) as u32, min_u32(div_ceil(max_y, l.tile_height), l.tiles_down))
}

/// The tiles that cover the pixel box `[min_x, max_x) x [min_y, max_y)`, row-major: the
/// columns from `min_x / tile_width` up to `max_x / tile_width` rounded up, and the same
/// for rows, each bounded by the grid of the level.
pub open spec fn spec_tiles_for_bounds(l: LevelView, min_x: u32, min_y: u32, max_x: u32, max_y: u32) -> Seq<
    usize,
> {
    grid_tiles(
        bounds_rows(l, min_y, max_y).0 as int,
        bounds_rows(l, min_y, max_y).1 as int,
        bounds_cols(l, min_x, max_x).0 as int,
        bounds_cols(l, min_x, max_x).1 as int,
        l.tiles_across as int,
    )
}

/// Every index of `spec_tiles_for_bounds` fits in a `u32`: the largest is that of the last
/// column of the last row.
pub open spec fn tile_indices_fit(l: LevelView, min_x: u32, min_y: u32, max_x: u32, max_y: u32) -> bool {
    let (sc, ec) = bounds_cols(l, min_x, max_x);
    let (sr, er) = bounds_rows(l, min_y, max_y);
    (er > sr && ec > sc) ==> (er - 1) * l.tiles_across + ec - 1 <= u32::MAX
}

/// Compute which tile indices cover a given pixel bounding box.
pub fn tiles_for_bounds(level: &OverviewLevel, min_x: u32, min_y: u32, max_x: u32, max_y: u32) -> (r:
    Vec<usize>)
    requires
        level.tile_width > 0,
        level.tile_height > 0,
        tile_indices_fit(level.view(), min_x, min_y, max_x, max_y),
    ensures
        r@ == spec_tiles_for_bounds(level.view(), min_x, min_y, max_x, max_y),
{
    let start_col = min_x / level.tile_width;
    let end_col = div_ceil_u32(max_x, level.tile_width);
    let start_row = min_y / level.tile_height;
    let end_row = div_ceil_u32(max_y, level.tile_height);
    let row_end = if end_row < level.tiles_down {
        end_row
    } else {
        level.tiles_down
    };
    let col_end = if end_col < level.tiles_across {
        end_col
    } else {
        level.tiles_across
    };
    let across = level.tiles_across;
    let ghost lv = level.view();
    let mut indices: Vec<usize> = Vec::new();
    let mut row = start_row;
    while row < row_end
        invariant
            start_row <= row || row_end <= start_row,
            row <= row_end || row == start_row,
            start_row <= row,
            (start_row, row_end) == bounds_rows(lv, min_y, max_y),
            (start_col, col_end) == bounds_cols(lv, min_x, max_x),
            across == lv.tiles_across,
            tile_indices_fit(lv, min_x, min_y, max_x, max_y),
            indices@ == grid_tiles(start_row as int, row as int, start_col as int, col_end as int, across as int),
        decreases row_end - row,
    {
        let mut col = start_col;
        while col < col_end
            invariant
                start_row <= row < row_end,
                start_col <= col,
                col <= col_end || col == start_col,
                (start_row, row_end) == bounds_rows(lv, min_y, max_y),
                (start_col, col_end) == bounds_cols(lv, min_x, max_x),
                across == lv.tiles_across,
                tile_indices_fit(lv, min_x, min_y, max_x, max_y),
                indices@ == grid_tiles(start_row as int, row as int, start_col as int, col_end as int, across as int)
                    + row_tiles(row as int, start_col as int, col_end as int, across as int).take(
                    col - start_col,
                ),
            decreases col_end - col,
        {
            assert(row * across + col <= u32::MAX) by (nonlinear_arith)
                requires
                    row < row_end,
                    col < col_end,
                    (row_end - 1) * across + col_end - 1 <= u32::MAX,
            ;
            let index = row * across + col;
            let ghost before = indices@;
            indices.push(index as usize);
            proof {
                let rt = row_tiles(row as int, start_col as int, col_end as int, across as int);
                assert(rt.take(col + 1 - start_col) =~= rt.take(col - start_col).push(index as usize));
                assert(indices@ =~= grid_tiles(start_row as int, row as int, start_col as int, col_end as int, across as int)
                    + rt.take(col + 1 - start_col));
            }
            col = col + 1;
        }
        proof {
            let rt = row_tiles(row as int, start_col as int, col_end as int, across as int);
            assert(rt.take(col - start_col) =~= rt);
        }
        row = row + 1;
    }
    indices
}

proof fn lemma_grid_tiles_bound(sr: int, er: int, sc: int, ec: int, across: int, down: int, k: int)
    requires
        0 <= sr,
        0 <= sc,
        er <= down,
        ec <= across,
        (er > sr && ec > sc) ==> (er - 1) * across + ec - 1 <= u32::MAX,
        0 <= k < grid_tiles(sr, er, sc, ec, across).len(),
    ensures
        grid_tiles(sr, er, sc, ec, across)[k] < across * down,
    decreases er - sr,
{
    if er > sr {
        let g = grid_tiles(sr, er - 1, sc, ec, across);
        let rt = row_tiles(er - 1, sc, ec, across);
        assert(grid_tiles(sr, er, sc, ec, across) == g + rt);
        if k < g.len() {
            if er - 1 > sr && ec > sc {
                assert((er - 2) * across + ec - 1 <= (er - 1) * across + ec - 1) by (nonlinear_arith)
                    requires
                        across >= 0,
                ;
            }
            lemma_grid_tiles_bound(sr, er - 1, sc, ec, across, down, k);
        } else {
            let j = k - g.len();
            let row = er - 1;
            let v = row * across + sc + j;
            assert(0 <= v <= (er - 1) * across + ec - 1) by (nonlinear_arith)
                requires
                    v == row * across + sc + j,
                    row == er - 1,
                    0 <= row,
                    0 <= sc,
                    0 <= j,
                    sc + j < ec,
                    across >= 0,
            ;
            assert((row + 1) * across <= down * across) by (nonlinear_arith)
                requires
                    row < down,
                    0 <= row,
                    across >= 0,
            ;
            assert(row * across + across == (row + 1) * across) by (nonlinear_arith);
            assert(across * down == down * across) by (nonlinear_arith);
            assert(rt[j] == v as usize);
        }
    }
}

/// Every tile index that `tiles_for_bounds` gives names a tile of the level's grid: it is
/// less than `tiles_across * tiles_down`.
pub proof fn lemma_tiles_for_bounds_in_grid(l: LevelView, min_x: u32, min_y: u32, max_x: u32, max_y: u32, k: int)
    requires
        l.tile_width > 0,
        l.tile_height > 0,
        tile_indices_fit(l, min_x, min_y, max_x, max_y),
        0 <= k < spec_tiles_for_bounds(l, min_x, min_y, max_x, max_y).len(),
    ensures
        spec_tiles_for_bounds(l, min_x, min_y, max_x, max_y)[k] < l.tiles_across * l.tiles_down,
{
    let (sc, ec) = bounds_cols(l, min_x, max_x);
    let (sr, er) = bounds_rows(l, min_y, max_y);
    lemma_grid_tiles_bound(sr as int, er as int, sc as int, ec as int, l.tiles_across as int, l.tiles_down as int, k);
}

proof fn lemma_grid_tiles_contains(sr: int, er: int, sc: int, ec: int, across: int, row: int, col: int)
    requires
        sr <= row < er,
        sc <= col < ec,
    ensures
        grid_tiles(sr, er, sc, ec, across).contains((row * across + col) as usize),
    decreases er - sr,
{
    let g = grid_tiles(sr, er - 1, sc, ec, across);
    let rt = row_tiles(er - 1, sc, ec, across);
    assert(grid_tiles(sr, er, sc, ec, across) == g + rt);
    if row < er - 1 {
        lemma_grid_tiles_contains(sr, er - 1, sc, ec, across, row, col);
        let k = choose|k: int| 0 <= k < g.len() && g[k] == (row * across + col) as usize;
        assert((g + rt)[k] == g[k]);
    } else {
        let j = col - sc;
        assert(rt[j] == (row * across + sc + j) as usize);
        assert((g + rt)[g.len() + j] == rt[j]);
    }
}

/// `a / b` rounded up, over the integers.
spec fn div_ceil_int(a: int, b: int) -> int {
    if a % b == 0 {
        a / b
    } else {
        a / b + 1
    }
}

proof fn lemma_axis_in_bounds(lo: int, v: int, hi: int, t: int)
    requires
        t > 0,
        0 <= lo <= v < hi <= u32::MAX,
    ensures
        lo / t <= v / t < div_ceil_int(hi, t),
        div_ceil_int(hi, t) <= u32::MAX,
{
    assert(lo / t <= v / t) by (nonlinear_arith)
        requires
            t > 0,
            0 <= lo <= v,
    ;
    assert(v / t <= hi / t) by (nonlinear_arith)
        requires
            t > 0,
            0 <= v <= hi,
    ;
    if hi % t == 0 {
        assert(v / t < hi / t) by (nonlinear_arith)
            requires
                t > 0,
                0 <= v < hi,
                hi % t == 0,
        ;
    } else {
        assert(hi / t < hi) by (nonlinear_arith)
            requires
                t > 0,
                0 < hi,
                hi % t != 0,
        ;
    }
    assert(hi / t <= hi) by (nonlinear_arith)
        requires
            t > 0,
            0 <= hi,
    ;
}

/// `tiles_for_bounds` covers the whole box: every pixel `(x, y)` with `min_x <= x < max_x`
/// and `min_y <= y < max_y` that lies in the level's tile grid has its tile, index
/// `(y / tile_height) * tiles_across + x / tile_width`, among the indices returned.
pub proof fn lemma_tiles_for_bounds_cover(
    l: LevelView,
    min_x: u32,
    min_y: u32,
    max_x: u32,
    max_y: u32,
    x: u32,
    y: u32,
)
    requires
        l.tile_width > 0,
        l.tile_height > 0,
        min_x <= x < max_x,
        min_y <= y < max_y,
        x / l.tile_width < l.tiles_across,
        y / l.tile_height < l.tiles_down,
    ensures
        spec_tiles_for_bounds(l, min_x, min_y, max_x, max_y).contains(
            ((y / l.tile_height) * l.tiles_across + x / l.tile_width) as usize,
        ),
{
    let tw = l.tile_width as int;
    let th = l.tile_height as int;
    let col = x / l.tile_width;
    let row = y / l.tile_height;
    lemma_axis_in_bounds(min_x as int, x as int, max_x as int, tw);
    lemma_axis_in_bounds(min_y as int, y as int, max_y as int, th);
    assert(div_ceil(max_x, l.tile_width) == div_ceil_int(max_x as int, tw));
    assert(div_ceil(max_y, l.tile_height) == div_ceil_int(max_y as int, th));
    lemma_grid_tiles_contains(
        bounds_rows(l, min_y, max_y).0 as int,
        bounds_rows(l, min_y, max_y).1 as int,
        bounds_cols(l, min_x, max_x).0 as int,
        bounds_cols(l, min_x, max_x).1 as int,
        l.tiles_across as int,
        row as int,
        col as int,
    );
}

/// A tile that lies within the data reads as exactly its bytes: at level `level`, with
/// `offset` and `length` the entries of that level's tables at `tile_index`, the result is
/// `Ok` of the `length` bytes of `d` from `offset` on.
pub proof fn lemma_read_raw_tile_bytes(d: Seq<u8>, m: CogMetadataView, level: int, tile_index: int)
    requires
        0 <= level < m.levels.len(),
        0 <= tile_index < m.levels[level].tile_offsets.len(),
        tile_index < m.levels[level].tile_byte_counts.len(),
        m.levels[level].tile_offsets[tile_index] + m.levels[level].tile_byte_counts[tile_index] <= d.len(),
    ensures
        spec_read_raw_tile(d, m, level, tile_index) matches Ok(b) && b.len()
            == m.levels[level].tile_byte_counts[tile_index] && forall|i: int|
            0 <= i < b.len() ==> #[trigger] b[i] == d[m.levels[level].tile_offsets[tile_index] + i],
{
}

/// What an IFD entry sets, by its tag: ImageWidth (256) the width, ImageLength (257) the
/// height, BitsPerSample (258), Compression (259) and SamplesPerPixel (277) the sample
/// fields (their low 16 bits), TileWidth (322) and TileLength (323) the tile sides, each to
/// the entry's value; TileOffsets (324) and TileByteCounts (325) the tables, read from the
/// entry; every other tag leaves the fields as they are. Nothing else changes.
pub proof fn lemma_entry_sets_its_field(d: Seq<u8>, order: ByteOrder, f: IfdFields, e: IfdEntry)
    ensures
        e.tag == 256 ==> apply_entry(d, order, f, e) == Ok::<IfdFields, CogError>(
            IfdFields { width: e.value_offset, ..f },
        ),
        e.tag == 257 ==> apply_entry(d, order, f, e) == Ok::<IfdFields, CogError>(
            IfdFields { height: e.value_offset, ..f },
        ),
        e.tag == 258 ==> apply_entry(d, order, f, e) == Ok::<IfdFields, CogError>(
            IfdFields { bits_per_sample: (e.value_offset % 65536) as u16, ..f },
        ),
        e.tag == 259 ==> apply_entry(d, order, f, e) == Ok::<IfdFields, CogError>(
            IfdFields { compression: (e.value_offset % 65536) as u16, ..f },
        ),
        e.tag == 277 ==> apply_entry(d, order, f, e) == Ok::<IfdFields, CogError>(
            IfdFields { samples_per_pixel: (e.value_offset % 65536) as u16, ..f },
        ),
        e.tag == 322 ==> apply_entry(d, order, f, e) == Ok::<IfdFields, CogError>(
            IfdFields { tile_width: e.value_offset, ..f },
        ),
        e.tag == 323 ==> apply_entry(d, order, f, e) == Ok::<IfdFields, CogError>(
            IfdFields { tile_height: e.value_offset, ..f },
        ),
        e.tag == 324 ==> apply_entry(d, order, f, e) == match spec_offset_array(
            d,
            order,
            e.value_offset,
            e.count,
            e.data_type,
        ) {
            Ok(v) => Ok::<IfdFields, CogError>(IfdFields { tile_offsets: v, ..f }),
            Err(x) => Err(x),
        },
        e.tag == 325 ==> apply_entry(d, order, f, e) == match spec_offset_array(
            d,
            order,
            e.value_offset,
            e.count,
            e.data_type,
        ) {
            Ok(v) => Ok::<IfdFields, CogError>(IfdFields { tile_byte_counts: v, ..f }),
            Err(x) => Err(x),
        },
        e.tag != 256 && e.tag != 257 && e.tag != 258 && e.tag != 259 && e.tag != 277 && e.tag != 322
            && e.tag != 323 && e.tag != 324 && e.tag != 325 ==> apply_entry(d, order, f, e) == Ok::<
            IfdFields,
            CogError,
        >(f),
{
    let v = e.value_offset;
    assert((v % 65536) as u16 == v as u16) by (bit_vector);
}

/// The other outcomes of reading a tile: `TileNotFound(tile_index)` when there is no level
/// `level` or its offset or byte-count table has no entry `tile_index`; an empty tile when
/// the byte count is 0, wherever the offset lies; `UnexpectedEof` when the tile has bytes
/// and runs past the end of the data.
pub proof fn lemma_read_raw_tile_outcomes(d: Seq<u8>, m: CogMetadataView, level: int, tile_index: int)
    requires
        0 <= level,
        0 <= tile_index <= usize::MAX,
    ensures
        level >= m.levels.len() ==> spec_read_raw_tile(d, m, level, tile_index) == Err::<Seq<u8>, CogError>(
            CogError::TileNotFound(tile_index as usize),
        ),
        level < m.levels.len() && (tile_index >= m.levels[level].tile_offsets.len() || tile_index
            >= m.levels[level].tile_byte_counts.len()) ==> spec_read_raw_tile(d, m, level, tile_index)
            == Err::<Seq<u8>, CogError>(CogError::TileNotFound(tile_index as usize)),
        level < m.levels.len() && tile_index < m.levels[level].tile_offsets.len() && tile_index
            < m.levels[level].tile_byte_counts.len() && m.levels[level].tile_byte_counts[tile_index]
            == 0 ==> spec_read_raw_tile(d, m, level, tile_index) == Ok::<Seq<u8>, CogError>(
            Seq::<u8>::empty(),
        ),
        level < m.levels.len() && tile_index < m.levels[level].tile_offsets.len() && tile_index
            < m.levels[level].tile_byte_counts.len() && m.levels[level].tile_byte_counts[tile_index]
            > 0 && m.levels[level].tile_offsets[tile_index] + m.levels[level].tile_byte_counts[tile_index]
            > d.len() ==> spec_read_raw_tile(d, m, level, tile_index) == Err::<Seq<u8>, CogError>(
            CogError::UnexpectedEof,
        ),
{
}

/// The value of the `width` bytes of `d` at `p` (2, 4 or 8 of them), in byte order `order`:
/// the first byte is the least significant one in little-endian order and the most
/// significant one in big-endian order.
pub open spec fn stored_value(d: Seq<u8>, p: int, width: int, order: ByteOrder) -> int {
    match order {
        ByteOrder::LittleEndian => if width == 2 {
            d[p] + 256 * d[p + 1]
        } else if width == 4 {
            d[p] + 256 * d[p + 1] + 65536 * d[p + 2] + 16777216 * d[p + 3]
        } else {
            d[p] + 256 * d[p + 1] + 65536 * d[p + 2] + 16777216 * d[p + 3] + 4294967296 * d[p + 4]
                + 1099511627776 * d[p + 5] + 281474976710656 * d[p + 6] + 72057594037927936 * d[p + 7]
        },
        ByteOrder::BigEndian => if width == 2 {
            256 * d[p] + d[p + 1]
        } else if width == 4 {
            16777216 * d[p] + 65536 * d[p + 1] + 256 * d[p + 2] + d[p + 3]
        } else {
            72057594037927936 * d[p] + 281474976710656 * d[p + 1] + 1099511627776 * d[p + 2]
                + 4294967296 * d[p + 3] + 16777216 * d[p + 4] + 65536 * d[p + 5] + 256 * d[p + 6]
                + d[p + 7]
        },
    }
}

proof fn lemma_offsets_from_values(d: Seq<u8>, order: ByteOrder, pos: nat, remaining: nat, width: nat)
    requires
        width == 2 || width == 4 || width == 8,
    ensures
        pos + width * remaining <= d.len() ==> (offsets_from(d, order, pos, remaining, width) matches Ok(v)
            && v.len() == remaining && forall|i: int|
            0 <= i < remaining ==> #[trigger] v[i] == stored_value(d, pos + width * i, width as int, order)),
        remaining > 0 && pos + width * remaining > d.len() ==> offsets_from(d, order, pos, remaining, width)
            == Err::<Seq<u64>, CogError>(CogError::UnexpectedEof),
    decreases remaining,
{
    if remaining > 0 {
        lemma_offsets_from_values(d, order, pos + width, (remaining - 1) as nat, width);
        assert(pos + width + width * (remaining - 1) == pos + width * remaining) by (nonlinear_arith);
        if pos + width <= d.len() {
            assert(spec_offset_value(d, pos as int, width, order) == stored_value(d, pos as int, width as int, order));
            if pos + width * remaining <= d.len() {
                let rest = offsets_from(d, order, pos + width, (remaining - 1) as nat, width)->Ok_0;
                let v = seq![spec_offset_value(d, pos as int, width, order)] + rest;
                assert forall|i: int| 0 <= i < remaining implies #[trigger] v[i] == stored_value(
                    d,
                    pos + width * i,
                    width as int,
                    order,
                ) by {
                    if i > 0 {
                        assert(v[i] == rest[i - 1]);
                        assert(pos + width + width * (i - 1) == pos + width * i) by (nonlinear_arith);
                    }
                }
            }
        }
    }
}

/// An offset table reads as its entry says: a count of 1 is the value itself; otherwise the
/// `count` elements stored one after the other from `value_offset`, each the full value of
/// its bytes in the file's byte order, 2 bytes for SHORT (3), 8 for LONG8 (16) and 4 for
/// LONG (4) and any other type, or `UnexpectedEof` when they do not all fit in the data.
pub proof fn lemma_offset_array_values(d: Seq<u8>, order: ByteOrder, value_offset: u32, count: u32, data_type: u16)
    ensures
        count == 1 ==> spec_offset_array(d, order, value_offset, count, data_type) == Ok::<
            Seq<u64>,
            CogError,
        >(seq![value_offset as u64]),
        ({
            let width: int = if data_type == 3 {
                2
            } else if data_type == 16 {
                8
            } else {
                4
            };
            &&& count != 1 && value_offset + width * count <= d.len() ==> (spec_offset_array(
                d,
                order,
                value_offset,
                count,
                data_type,
            ) matches Ok(v) && v.len() == count && forall|i: int|
                0 <= i < count ==> #[trigger] v[i] == stored_value(d, value_offset + width * i, width, order))
            &&& count > 1 && value_offset + width * count > d.len() ==> spec_offset_array(
                d,
                order,
                value_offset,
                count,
                data_type,
            ) == Err::<Seq<u64>, CogError>(CogError::UnexpectedEof)
        }),
{
    if count != 1 {
        lemma_offsets_from_values(d, order, value_offset as nat, count as nat, bytes_per_entry(data_type));
    }
}

/// The index of the tile at `row`, `col` in a grid `across` tiles wide: `row * across + col`.
pub open spec fn tile_number(row: int, col: int, across: int) -> int {
    row * across + col
}

proof fn lemma_grid_tiles_members(sr: int, er: int, sc: int, ec: int, across: int, k: int)
    requires
        0 <= sr,
        0 <= sc,
        ec <= across,
        (er > sr && ec > sc) ==> (er - 1) * across + ec - 1 <= u32::MAX,
        0 <= k < grid_tiles(sr, er, sc, ec, across).len(),
    ensures
        exists|row: int, col: int|
            sr <= row < er && sc <= col < ec && grid_tiles(sr, er, sc, ec, across)[k]
                == #[trigger] tile_number(row, col, across),
    decreases er - sr,
{
    let g = grid_tiles(sr, er - 1, sc, ec, across);
    let rt = row_tiles(er - 1, sc, ec, across);
    assert(grid_tiles(sr, er, sc, ec, across) == g + rt);
    if k < g.len() {
        if er - 1 > sr && ec > sc {
            assert((er - 2) * across + ec - 1 <= (er - 1) * across + ec - 1) by (nonlinear_arith)
                requires
                    across >= 0,
            ;
        }
        lemma_grid_tiles_members(sr, er - 1, sc, ec, across, k);
        let (row, col) = choose|row: int, col: int|
            sr <= row < er - 1 && sc <= col < ec && g[k] == #[trigger] tile_number(row, col, across);
        assert((g + rt)[k] == g[k]);
    } else {
        let j = k - g.len();
        let row = er - 1;
        assert(0 <= row * across + sc + j <= (er - 1) * across + ec - 1) by (nonlinear_arith)
            requires
                row == er - 1,
                0 <= row,
                0 <= sc,
                0 <= j,
                sc + j < ec,
                across >= 0,
        ;
        assert((g + rt)[k] == rt[j]);
        assert(rt[j] == (row * across + sc + j) as usize);
        assert(grid_tiles(sr, er, sc, ec, across)[k] == tile_number(row, sc + j, across));
    }
}

/// `tiles_for_bounds` returns only tiles of the level's grid that meet the box: each index
/// is `row * tiles_across + col` for a column `col < tiles_across` whose pixels
/// `col * tile_width .. (col + 1) * tile_width` meet `min_x .. max_x`, and a row
/// `row < tiles_down` whose pixels meet `min_y .. max_y`.
pub proof fn lemma_tiles_for_bounds_meet_box(
    l: LevelView,
    min_x: u32,
    min_y: u32,
    max_x: u32,
    max_y: u32,
    k: int,
)
    requires
        l.tile_width > 0,
        l.tile_height > 0,
        tile_indices_fit(l, min_x, min_y, max_x, max_y),
        0 <= k < spec_tiles_for_bounds(l, min_x, min_y, max_x, max_y).len(),
    ensures
        exists|row: int, col: int|
            #![trigger tile_number(row, col, l.tiles_across as int)]
            0 <= col < l.tiles_across && 0 <= row < l.tiles_down && col * l.tile_width < max_x && min_x
                < (col + 1) * l.tile_width && row * l.tile_height < max_y && min_y < (row + 1)
                * l.tile_height && spec_tiles_for_bounds(l, min_x, min_y, max_x, max_y)[k]
                == tile_number(row, col, l.tiles_across as int),
{
    let (sc, ec) = bounds_cols(l, min_x, max_x);
    let (sr, er) = bounds_rows(l, min_y, max_y);
    lemma_grid_tiles_members(sr as int, er as int, sc as int, ec as int, l.tiles_across as int, k);
    let (row, col) = choose|row: int, col: int|
        sr <= row < er && sc <= col < ec && spec_tiles_for_bounds(l, min_x, min_y, max_x, max_y)[k]
            == #[trigger] tile_number(row, col, l.tiles_across as int);
    lemma_div_ceil_int(max_x, l.tile_width);
    lemma_div_ceil_int(max_y, l.tile_height);
    lemma_axis_meets(min_x as int, max_x as int, l.tile_width as int, col);
    lemma_axis_meets(min_y as int, max_y as int, l.tile_height as int, row);
}

proof fn lemma_div_ceil_int(a: u32, b: u32)
    requires
        b > 0,
    ensures
        div_ceil(a, b) == div_ceil_int(a as int, b as int),
{
    if a % b != 0 {
        assert(a / b < a) by (nonlinear_arith)
            requires
                b > 0,
                a % b != 0,
        ;
    }
}

proof fn lemma_axis_meets(lo: int, hi: int, t: int, c: int)
    requires
        t > 0,
        0 <= lo,
        0 <= hi,
        lo / t <= c < div_ceil_int(hi, t),
    ensures
        c * t < hi,
        lo < (c + 1) * t,
{
    assert(lo < (c + 1) * t) by (nonlinear_arith)
        requires
            t > 0,
            0 <= lo,
            lo / t <= c,
    ;
    if hi % t == 0 {
        assert(c * t < hi) by (nonlinear_arith)
            requires
                t > 0,
                0 <= hi,
                hi % t == 0,
                c < hi / t,
        ;
    } else {
        assert(c * t < hi) by (nonlinear_arith)
            requires
                t > 0,
                0 <= hi,
                hi % t != 0,
                c <= hi / t,
        ;
    }
}

proof fn lemma_grid_tiles_increasing(sr: int, er: int, sc: int, ec: int, across: int, k1: int, k2: int)
    requires
        0 <= sr,
        0 <= sc,
        ec <= across,
        (er > sr && ec > sc) ==> (er - 1) * across + ec - 1 <= u32::MAX,
        0 <= k1 < k2 < grid_tiles(sr, er, sc, ec, across).len(),
    ensures
        grid_tiles(sr, er, sc, ec, across)[k1] < grid_tiles(sr, er, sc, ec, across)[k2],
    decreases er - sr,
{
    let g = grid_tiles(sr, er - 1, sc, ec, across);
    let rt = row_tiles(er - 1, sc, ec, across);
    assert(grid_tiles(sr, er, sc, ec, across) == g + rt);
    if er - 1 > sr && ec > sc {
        assert((er - 2) * across + ec - 1 <= (er - 1) * across + ec - 1) by (nonlinear_arith)
            requires
                across >= 0,
        ;
    }
    let row = er - 1;
    if k2 < g.len() {
        lemma_grid_tiles_increasing(sr, er - 1, sc, ec, across, k1, k2);
    } else if k1 >= g.len() {
        let j1 = k1 - g.len();
        let j2 = k2 - g.len();
        assert(0 <= row * across + sc + j2 <= (er - 1) * across + ec - 1) by (nonlinear_arith)
            requires
                row == er - 1,
                0 <= row,
                0 <= sc,
                0 <= j2,
                sc + j2 < ec,
                across >= 0,
        ;
        assert(0 <= row * across + sc + j1) by (nonlinear_arith)
            requires
                0 <= row,
                0 <= sc,
                0 <= j1,
                across >= 0,
        ;
        assert(rt[j1] == (row * across + sc + j1) as usize);
        assert(rt[j2] == (row * across + sc + j2) as usize);
    } else {
        lemma_grid_tiles_members(sr, er - 1, sc, ec, across, k1);
        let (r1, c1) = choose|r1: int, c1: int|
            sr <= r1 < er - 1 && sc <= c1 < ec && g[k1] == #[trigger] tile_number(r1, c1, across);
        let j2 = k2 - g.len();
        assert(0 <= row * across + sc + j2 <= (er - 1) * across + ec - 1) by (nonlinear_arith)
            requires
                row == er - 1,
                0 <= row,
                0 <= sc,
                0 <= j2,
                sc + j2 < ec,
                across >= 0,
        ;
        assert(rt[j2] == (row * across + sc + j2) as usize);
        assert(r1 * across + across <= row * across) by (nonlinear_arith)
            requires
                r1 + 1 <= row,
                0 <= r1,
                across >= 0,
        ;
        assert(c1 < across);
    }
}

/// `tiles_for_bounds` lists its tiles in row-major order, each once: the indices strictly
/// increase.
pub proof fn lemma_tiles_for_bounds_increasing(
    l: LevelView,
    min_x: u32,
    min_y: u32,
    max_x: u32,
    max_y: u32,
    k1: int,
    k2: int,
)
    requires
        l.tile_width > 0,
        l.tile_height > 0,
        tile_indices_fit(l, min_x, min_y, max_x, max_y),
        0 <= k1 < k2 < spec_tiles_for_bounds(l, min_x, min_y, max_x, max_y).len(),
    ensures
        spec_tiles_for_bounds(l, min_x, min_y, max_x, max_y)[k1] < spec_tiles_for_bounds(
            l,
            min_x,
            min_y,
            max_x,
            max_y,
        )[k2],
{
    let (sc, ec) = bounds_cols(l, min_x, max_x);
    let (sr, er) = bounds_rows(l, min_y, max_y);
    lemma_grid_tiles_increasing(sr as int, er as int, sc as int, ec as int, l.tiles_across as int, k1, k2);
}
} // verus!
