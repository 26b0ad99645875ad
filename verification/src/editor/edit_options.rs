//! The edits that the side panel offers for a selected pixel.

use vstd::prelude::*;
use vstd::string::StringExecFns;

use super::core_data::CoreData;
use super::edit::{ActionView, ByteWrite, EditAction, EditKind, KindView, Patch};
use super::select::{
    fmt_pixel, options_view, pixel_text, same_len_lit_swaps, swap_symbols, EditOption, LitPatchSite,
    OptionView,
};
use crate::coords::{OutPos, PixelXY};
use crate::deflate::events::{code_len, sym_code, EncTable, RefEvent, SymCode};
use crate::index::pixel::DistAlt;
use crate::png::chunks::PngInfo;
use crate::raster::raster_pixel;
use crate::text::{decimal, push_decimal};

verus! {

// Redirects.

/// The texts of the numbers, with commas between.
pub open spec fn comma_list(values: Seq<u8>) -> Seq<char>
    decreases values.len(),
{
    if values.len() == 0 {
        Seq::empty()
    } else if values.len() == 1 {
        decimal(values[0] as nat)
    } else {
        comma_list(values.drop_last()) + ","@ + decimal(values.last() as nat)
    }
}

fn join_numbers(values: &[u8]) -> (r: String)
    ensures
        r@ == comma_list(values@),
{
    let mut s: String = String::new();
    let mut i: usize = 0;
    assert(values@.take(0) =~= Seq::<u8>::empty());
    assert(s@ =~= comma_list(values@.take(0)));
    while i < values.len()
        invariant
            i <= values@.len(),
            s@ == comma_list(values@.take(i as int)),
        decreases values@.len() - i,
    {
        let ghost before = s@;
        if i > 0 {
            s.append(",");
        }
        push_decimal(&mut s, values[i] as u64);
        proof {
            let now = values@.take(i + 1);
            assert(now.drop_last() =~= values@.take(i as int));
            if i == 0 {
                assert(s@ =~= decimal(values@[0] as nat));
            }
        }
        i = i + 1;
    }
    assert(values@.take(i as int) =~= values@);
    s
}

/// Bytes that one sample takes.
pub open spec fn sample_bytes(info: PngInfo) -> int {
    if info.bit_depth >= 8 {
        (info.bit_depth / 8) as int
    } else {
        1
    }
}

/// One byte for each of the first `n` channels of the pixel at `src`: the
/// high byte at 16-bit, the whole byte at 8-bit. Bytes past the end are left
/// out.
pub open spec fn preview_of(output: Seq<u8>, src: int, step: int, n: int) -> Seq<u8>
    decreases n,
{
    if n <= 0 {
        Seq::empty()
    } else {
        let rest = preview_of(output, src, step, n - 1);
        let p = src + (n - 1) * step;
        if 0 <= p < output.len() {
            rest.push(output[p])
        } else {
            rest
        }
    }
}

fn preview_bytes(c: &CoreData, src: u32) -> (r: Vec<u8>)
    ensures
        r@ == preview_of(
            c.output@,
            src as int,
            sample_bytes(c.info),
            c.info.color_type.spec_channels() as int,
        ),
{
    // One representative byte per channel: the high byte at 16-bit (which
    // is what the picture shows), the whole byte at 8-bit.
    let step: u64 = if c.info.bit_depth >= 8 {
        (c.info.bit_depth / 8) as u64
    } else {
        1
    };
    let n: u32 = c.info.color_type.channels();
    let mut out: Vec<u8> = Vec::new();
    let mut ch: u32 = 0;
    while ch < n
        invariant
            ch <= n,
            step <= 31,
            step == sample_bytes(c.info),
            out@ == preview_of(c.output@, src as int, sample_bytes(c.info), ch as int),
        decreases n - ch,
    {
        proof {
            assert(0 <= ch * step <= 0xFFFF_FFFF * 31) by (nonlinear_arith)
                requires
                    0 <= ch <= 0xFFFF_FFFF,
                    0 <= step <= 31,
            ;
        }
        let p: u64 = src as u64 + ch as u64 * step;
        if p < c.output.len() as u64 {
            out.push(c.output[p as usize]);
        }
        ch = ch + 1;
    }
    out
}

/// The sum of the values.
pub open spec fn sum_of(values: Seq<u8>) -> int
    decreases values.len(),
{
    if values.len() == 0 {
        0
    } else {
        sum_of(values.drop_last()) + values.last()
    }
}

/// The swatch of a preview: the first three bytes, and the average of all for
/// each that is missing; grey for an empty preview.
pub open spec fn swatch_of(preview: Seq<u8>) -> Seq<u8> {
    let avg = if preview.len() == 0 {
        128u8
    } else {
        (sum_of(preview) / preview.len() as int) as u8
    };
    Seq::new(
        3,
        |i: int|
            if i < preview.len() {
                preview[i]
            } else {
                avg
            },
    )
}

/// RGB swatch for a distance redirect's target pixel; falls back to grey
/// of the channel average when fewer than 3 channels are available.
pub fn preview_color(preview: &[u8]) -> (r: [u8; 3])
    requires
        preview@.len() <= 0x0100_0000,
    ensures
        r@ == swatch_of(preview@),
{
    let mut sum: u32 = 0;
    let mut i: usize = 0;
    assert(preview@.take(0) =~= Seq::<u8>::empty());
    while i < preview.len()
        invariant
            i <= preview@.len() <= 0x0100_0000,
            sum == sum_of(preview@.take(i as int)),
            sum <= 255 * i,
        decreases preview@.len() - i,
    {
        proof {
            assert(preview@.take(i + 1).drop_last() =~= preview@.take(i as int));
        }
        sum = sum + preview[i] as u32;
        i = i + 1;
    }
    assert(preview@.take(i as int) =~= preview@);
    let n: usize = preview.len();
    let avg: u8 = if n == 0 {
        128
    } else {
        proof {
            let (s, m) = (sum as int, n as int);
            assert(0 <= s / m <= 255) by (nonlinear_arith)
                requires
                    0 <= s <= 255 * m,
                    m >= 1,
            ;
        }
        (sum / n as u32) as u8
    };
    let r: [u8; 3] = [
        if n > 0 {
            preview[0]
        } else {
            avg
        },
        if n > 1 {
            preview[1]
        } else {
            avg
        },
        if n > 2 {
            preview[2]
        } else {
            avg
        },
    ];
    assert(r@ =~= swatch_of(preview@));
    r
}

/// The option that redirects a back-reference to one alternative.
pub open spec fn redirect_option(
    c: CoreData,
    r: RefEvent,
    block: int,
    name: Seq<char>,
    alt: DistAlt,
) -> OptionView {
    let dist = (r.out_pos - r.src_out_pos) as nat;
    let code = match sym_code(c.dist_encs@[block]@, alt.dist_sym as int) {
        Some(sc) => sc,
        None => SymCode { code: 0, len: 0 },
    };
    let preview = preview_of(
        c.output@,
        alt.src_out_pos as int,
        sample_bytes(c.info),
        c.info.color_type.spec_channels() as int,
    );
    OptionView {
        label: "["@ + name + "] REDIRECT  dist "@ + decimal(dist) + " → "@ + decimal(
            alt.distance as nat,
        ) + "  src "@ + pixel_text(raster_pixel(c.info, alt.src_out_pos as int)) + "  val≈"@
            + comma_list(preview),
        bg_color: swatch_of(preview),
        fg_color: None,
        action: ActionView {
            patches: seq![
                Patch {
                    bit_start: r.dist_bit_start,
                    value: code.code as u32,
                    code_len: code.len,
                },
            ],
            label: "redirect distance "@ + decimal(dist) + " → "@ + decimal(alt.distance as nat),
            kind: KindView::Redirect {
                out_pos: r.out_pos,
                copy_len: r.copy_len,
                src: alt.src_out_pos,
                dist_sym: alt.dist_sym,
            },
        },
    }
}

/// One option for each alternative whose code is as long as the current one.
pub open spec fn redirect_options(
    c: CoreData,
    r: RefEvent,
    block: int,
    name: Seq<char>,
    alts: Seq<DistAlt>,
) -> Seq<OptionView>
    decreases alts.len(),
{
    if alts.len() == 0 {
        Seq::empty()
    } else {
        let rest = redirect_options(c, r, block, name, alts.drop_last());
        let table = c.dist_encs@[block]@;
        if code_len(table, alts.last().dist_sym as int) == code_len(table, r.dist_sym as int) {
            rest.push(redirect_option(c, r, block, name, alts.last()))
        } else {
            rest
        }
    }
}

fn build_redirect(
    c: &CoreData,
    r: &RefEvent,
    block: u32,
    ch_name: &str,
    alt: DistAlt,
) -> (o: EditOption)
    requires
        c.wf(),
        block < c.dist_encs@.len(),
        r.src_out_pos <= r.out_pos,
    ensures
        o@ == redirect_option(*c, *r, block as int, ch_name@, alt),
{
    let sc: SymCode = match c.dist_encs[block as usize].get(alt.dist_sym as u16) {
        Some(sc) => sc,
        None => SymCode { code: 0, len: 0 },
    };
    let dist: u32 = r.out_pos - r.src_out_pos;
    let src_xy: Option<PixelXY> = c.raster.out_to_xy(OutPos(alt.src_out_pos));
    let preview: Vec<u8> = preview_bytes(c, alt.src_out_pos);
    proof {
        lemma_preview_len(
            c.output@,
            alt.src_out_pos as int,
            sample_bytes(c.info),
            c.info.color_type.spec_channels() as int,
        );
    }
    let mut label: String = String::from_str("[");
    label.append(ch_name);
    label.append("] REDIRECT  dist ");
    push_decimal(&mut label, dist as u64);
    label.append(" → ");
    push_decimal(&mut label, alt.distance as u64);
    label.append("  src ");
    label.append(fmt_pixel(src_xy).as_str());
    label.append("  val≈");
    label.append(join_numbers(preview.as_slice()).as_str());
    let mut what: String = String::from_str("redirect distance ");
    push_decimal(&mut what, dist as u64);
    what.append(" → ");
    push_decimal(&mut what, alt.distance as u64);
    let mut patches: Vec<Patch> = Vec::new();
    patches.push(
        Patch { bit_start: r.dist_bit_start, value: sc.code as u32, code_len: sc.len },
    );
    let o = EditOption {
        label,
        bg_color: preview_color(preview.as_slice()),
        fg_color: None,
        action: EditAction {
            patches,
            label: what,
            kind: EditKind::DistRedirect {
                out_pos: r.out_pos,
                copy_len: r.copy_len,
                src_after: alt.src_out_pos,
                dist_sym_after: alt.dist_sym,
            },
        },
    };
    proof {
        let want = redirect_option(*c, *r, block as int, ch_name@, alt);
        assert(o@.action.patches =~= want.action.patches);
        assert(o@.label == want.label);
        assert(o@.action.label == want.action.label);
    }
    o
}

proof fn lemma_preview_len(output: Seq<u8>, src: int, step: int, n: int)
    requires
        0 <= n,
    ensures
        preview_of(output, src, step, n).len() <= n,
    decreases n,
{
    if n > 0 {
        lemma_preview_len(output, src, step, n - 1);
    }
}

/// The redirects of one back-reference.
pub fn build_ref_redirect_edits(
    c: &CoreData,
    r: &RefEvent,
    block: u32,
    ch_name: &str,
    alts: &[DistAlt],
) -> (out: Vec<EditOption>)
    requires
        c.wf(),
        block < c.dist_encs@.len(),
        r.src_out_pos <= r.out_pos,
    ensures
        options_view(out@) == redirect_options(*c, *r, block as int, ch_name@, alts@),
{
    let de: &EncTable = &c.dist_encs[block as usize];
    let old_len: u8 = match de.get(r.dist_sym as u16) {
        Some(sc) => sc.len,
        None => 0,
    };
    let mut out: Vec<EditOption> = Vec::new();
    let mut i: usize = 0;
    assert(alts@.take(0) =~= Seq::<DistAlt>::empty());
    assert(options_view(out@) =~= Seq::<OptionView>::empty());
    while i < alts.len()
        invariant
            i <= alts@.len(),
            c.wf(),
            block < c.dist_encs@.len(),
            de@ == c.dist_encs@[block as int]@,
            r.src_out_pos <= r.out_pos,
            old_len == code_len(de@, r.dist_sym as int),
            options_view(out@) == redirect_options(
                *c,
                *r,
                block as int,
                ch_name@,
                alts@.take(i as int),
            ),
        decreases alts@.len() - i,
    {
        let alt: DistAlt = alts[i];
        let new_len: u8 = match de.get(alt.dist_sym as u16) {
            Some(sc) => sc.len,
            None => 0,
        };
        proof {
            let now = alts@.take(i + 1);
            assert(now.drop_last() =~= alts@.take(i as int));
            assert(now.last() == alt);
        }
        if new_len == old_len {
            let ghost before = out@;
            let o: EditOption = build_redirect(c, r, block, ch_name, alt);
            out.push(o);
            assert(options_view(out@) =~= options_view(before).push(o@));
        }
        i = i + 1;
    }
    assert(alts@.take(i as int) =~= alts@);
    out
}

// Literal swaps.

/// The literals of a pixel that share a symbol and a block, so one option
/// covers every channel sharing those: a pixel with all three RGB bytes
/// literal-encoded in the same block becomes a single "literal X → Y" row,
/// not three.
pub struct LitGroup {
    pub val: u8,
    pub block: u32,
    pub sites: Vec<LitPatchSite>,
}

/// A [`LitGroup`] as plain values.
pub struct GroupView {
    pub val: u8,
    pub block: u32,
    pub sites: Seq<LitPatchSite>,
}

impl View for LitGroup {
    type V = GroupView;

    open spec fn view(&self) -> GroupView {
        GroupView { val: self.val, block: self.block, sites: self.sites@ }
    }
}

/// What a list of groups holds.
pub open spec fn groups_view(groups: Seq<LitGroup>) -> Seq<GroupView> {
    groups.map_values(|g: LitGroup| g@)
}

/// The groups with one more site: in the group of its symbol and block, or in a
/// new one behind the others.
pub open spec fn add_site(
    groups: Seq<GroupView>,
    val: u8,
    block: u32,
    site: LitPatchSite,
    i: int,
) -> Seq<GroupView>
    decreases groups.len() - i,
{
    if i >= groups.len() {
        groups.push(GroupView { val, block, sites: seq![site] })
    } else if groups[i].val == val && groups[i].block == block {
        groups.update(i, GroupView { val, block, sites: groups[i].sites.push(site) })
    } else {
        add_site(groups, val, block, site, i + 1)
    }
}

pub fn put_site(groups: &mut Vec<LitGroup>, val: u8, block: u32, site: LitPatchSite)
    ensures
        groups_view(final(groups)@) == add_site(groups_view(old(groups)@), val, block, site, 0),
{
    let ghost before = groups_view(groups@);
    let mut i: usize = 0;
    while i < groups.len()
        invariant
            i <= groups@.len(),
            groups@ == old(groups)@,
            before == groups_view(groups@),
            add_site(before, val, block, site, 0) == add_site(before, val, block, site, i as int),
        decreases groups@.len() - i,
    {
        assert(before[i as int] == groups@[i as int]@);
        if groups[i].val == val && groups[i].block == block {
            groups[i].sites.push(site);
            assert(groups_view(groups@) =~= before.update(
                i as int,
                GroupView { val, block, sites: before[i as int].sites.push(site) },
            ));
            return ;
        }
        i = i + 1;
    }
    let mut sites: Vec<LitPatchSite> = Vec::new();
    sites.push(site);
    assert(sites@ =~= seq![site]);
    groups.push(LitGroup { val, block, sites });
    assert(groups_view(groups@) =~= before.push(GroupView { val, block, sites: seq![site] }));
}

/// The channel names of the sites, with commas between.
pub open spec fn site_names(info: PngInfo, sites: Seq<LitPatchSite>) -> Seq<char>
    decreases sites.len(),
{
    if sites.len() == 0 {
        Seq::empty()
    } else if sites.len() == 1 {
        info.label(sites[0].ch)
    } else {
        site_names(info, sites.drop_last()) + ","@ + info.label(sites.last().ch)
    }
}

fn join_names(info: &PngInfo, sites: &[LitPatchSite]) -> (r: String)
    ensures
        r@ == site_names(*info, sites@),
{
    let mut s: String = String::new();
    let mut i: usize = 0;
    assert(sites@.take(0) =~= Seq::<LitPatchSite>::empty());
    assert(s@ =~= site_names(*info, sites@.take(0)));
    while i < sites.len()
        invariant
            i <= sites@.len(),
            s@ == site_names(*info, sites@.take(i as int)),
        decreases sites@.len() - i,
    {
        if i > 0 {
            s.append(",");
        }
        s.append(info.channel_label(sites[i].ch).as_str());
        proof {
            let now = sites@.take(i + 1);
            assert(now.drop_last() =~= sites@.take(i as int));
            if i == 0 {
                assert(s@ =~= info.label(sites@[0].ch));
            }
        }
        i = i + 1;
    }
    assert(sites@.take(i as int) =~= sites@);
    s
}

/// The option that swaps the literals of a group for `tgt`.
pub open spec fn swap_option(c: CoreData, g: GroupView, tgt: u16) -> OptionView {
    let code = match sym_code(c.lit_encs@[g.block as int]@, tgt as int) {
        Some(sc) => sc,
        None => SymCode { code: 0, len: 0 },
    };
    OptionView {
        label: "["@ + site_names(c.info, g.sites) + "] LITERAL  "@ + decimal(g.val as nat) + " → "@
            + decimal(tgt as nat),
        bg_color: seq![tgt as u8, tgt as u8, tgt as u8],
        fg_color: Some(
            seq![(255 - tgt as u8) as u8, (255 - tgt as u8) as u8, (255 - tgt as u8) as u8],
        ),
        action: ActionView {
            patches: g.sites.map_values(
                |s: LitPatchSite|
                    Patch { bit_start: s.bit_start, value: code.code as u32, code_len: code.len },
            ),
            label: "literal "@ + decimal(g.val as nat) + " → "@ + decimal(tgt as nat),
            kind: KindView::Swap(
                g.sites.map_values(
                    |s: LitPatchSite| ByteWrite { out_pos: s.out_pos, value: tgt as u8 },
                ),
            ),
        },
    }
}

/// One option for each target.
pub open spec fn swap_targets(c: CoreData, g: GroupView, targets: Seq<u16>) -> Seq<OptionView> {
    targets.map_values(|t: u16| swap_option(c, g, t))
}

/// The swaps of every group, group by group, targets ascending.
pub open spec fn swap_options(c: CoreData, groups: Seq<GroupView>) -> Seq<OptionView>
    decreases groups.len(),
{
    if groups.len() == 0 {
        Seq::empty()
    } else {
        let g = groups.last();
        swap_options(c, groups.drop_last()) + swap_targets(
            c,
            g,
            swap_symbols(c.lit_encs@[g.block as int]@, g.val as int, 256),
        )
    }
}

fn build_swap(c: &CoreData, g: &LitGroup, tgt: u16) -> (o: EditOption)
    requires
        g.block < c.lit_encs@.len(),
        tgt < 256,
    ensures
        o@ == swap_option(*c, g@, tgt),
{
    let sc: SymCode = match c.lit_encs[g.block as usize].get(tgt) {
        Some(sc) => sc,
        None => SymCode { code: 0, len: 0 },
    };
    let mut label: String = String::from_str("[");
    label.append(join_names(&c.info, g.sites.as_slice()).as_str());
    label.append("] LITERAL  ");
    push_decimal(&mut label, g.val as u64);
    label.append(" → ");
    push_decimal(&mut label, tgt as u64);
    let mut what: String = String::from_str("literal ");
    push_decimal(&mut what, g.val as u64);
    what.append(" → ");
    push_decimal(&mut what, tgt as u64);
    let mut patches: Vec<Patch> = Vec::new();
    let mut byte_updates: Vec<ByteWrite> = Vec::new();
    let mut i: usize = 0;
    let ghost want = swap_option(*c, g@, tgt);
    while i < g.sites.len()
        invariant
            i <= g.sites@.len(),
            want == swap_option(*c, g@, tgt),
            sc == (match sym_code(c.lit_encs@[g.block as int]@, tgt as int) {
                Some(sc) => sc,
                None => SymCode { code: 0, len: 0 },
            }),
            patches@ =~= want.action.patches.take(i as int),
            byte_updates@ =~= want.action.kind->Swap_0.take(i as int),
        decreases g.sites@.len() - i,
    {
        let s: LitPatchSite = g.sites[i];
        patches.push(Patch { bit_start: s.bit_start, value: sc.code as u32, code_len: sc.len });
        byte_updates.push(ByteWrite { out_pos: s.out_pos, value: tgt as u8 });
        i = i + 1;
    }
    let grey: u8 = tgt as u8;
    let ink: u8 = 255 - grey;
    let o = EditOption {
        label,
        bg_color: [grey, grey, grey],
        fg_color: Some([ink, ink, ink]),
        action: EditAction { patches, label: what, kind: EditKind::LiteralSwap { byte_updates } },
    };
    proof {
        assert(o@.bg_color =~= want.bg_color);
        assert(o@.fg_color->0 =~= want.fg_color->0);
        assert(o@.action.patches =~= want.action.patches);
        assert(o@.action.kind->Swap_0 =~= want.action.kind->Swap_0);
        assert(o@.label == want.label);
        assert(o@.action.label == want.action.label);
    }
    o
}

/// The literal swaps of a pixel.
pub fn build_lit_swap_edits(c: &CoreData, groups: &[LitGroup]) -> (out: Vec<EditOption>)
    requires
        forall|i: int| 0 <= i < groups@.len() ==> (#[trigger] groups@[i]).block < c.lit_encs@.len(),
    ensures
        options_view(out@) == swap_options(*c, groups_view(groups@)),
{
    let mut out: Vec<EditOption> = Vec::new();
    let ghost all = groups_view(groups@);
    let mut i: usize = 0;
    assert(all.take(0) =~= Seq::<GroupView>::empty());
    assert(options_view(out@) =~= Seq::<OptionView>::empty());
    while i < groups.len()
        invariant
            i <= groups@.len(),
            forall|i: int|
                0 <= i < groups@.len() ==> (#[trigger] groups@[i]).block < c.lit_encs@.len(),
            all == groups_view(groups@),
            options_view(out@) == swap_options(*c, all.take(i as int)),
        decreases groups@.len() - i,
    {
        let g: &LitGroup = &groups[i];
        let swappable: Vec<u16> = same_len_lit_swaps(
            &c.lit_encs[g.block as usize],
            g.val as u16,
        );
        let ghost done = options_view(out@);
        let mut j: usize = 0;
        assert(swap_targets(*c, g@, swappable@.take(0)) =~= Seq::<OptionView>::empty());
        assert(done + Seq::<OptionView>::empty() =~= done);
        while j < swappable.len()
            invariant
                j <= swappable@.len(),
                g.block < c.lit_encs@.len(),
                swappable@ == swap_symbols(c.lit_encs@[g.block as int]@, g.val as int, 256),
                options_view(out@) == done + swap_targets(*c, g@, swappable@.take(j as int)),
            decreases swappable@.len() - j,
        {
            proof {
                super::select::law_swaps_keep_width(
                    c.lit_encs@[g.block as int]@,
                    g.val as int,
                    256,
                    j as int,
                );
            }
            let ghost before = out@;
            let o: EditOption = build_swap(c, g, swappable[j]);
            out.push(o);
            assert(options_view(out@) =~= options_view(before).push(o@));
            assert(swap_targets(*c, g@, swappable@.take(j + 1)) =~= swap_targets(
                *c,
                g@,
                swappable@.take(j as int),
            ).push(o@));
            assert(options_view(out@) =~= done + swap_targets(*c, g@, swappable@.take(j + 1)));
            j = j + 1;
        }
        proof {
            assert(swappable@.take(j as int) =~= swappable@);
            let now = all.take(i + 1);
            assert(now.drop_last() =~= all.take(i as int));
            assert(now.last() == g@);
        }
        i = i + 1;
    }
    assert(all.take(i as int) =~= all);
    out
}

/// The swatch of a redirect: the bytes of the pixel that it would copy from, as
/// far as there are three; what is missing is filled with their mean, rounded
/// down, or middle grey where there is none.
pub proof fn law_swatch(preview: Seq<u8>, i: int)
    requires
        0 <= i < 3,
    ensures
        ({
            let v = swatch_of(preview)[i] as int;
            let n = preview.len() as int;
            &&& swatch_of(preview).len() == 3
            &&& i < n ==> v == preview[i]
            &&& i >= n && n > 0 ==> n * v <= sum_of(preview) < n * (v + 1)
            &&& n == 0 ==> v == 128
        }),
{
    let n = preview.len() as int;
    if n > 0 {
        let s = sum_of(preview);
        lemma_sum_bound(preview);
        vstd::arithmetic::div_mod::lemma_fundamental_div_mod(s, n);
        vstd::arithmetic::div_mod::lemma_mod_bound(s, n);
        let q = s / n;
        assert(0 <= q <= 255) by (nonlinear_arith)
            requires
                0 <= s <= 255 * n,
                n >= 1,
                q == s / n,
        ;
        assert(n * (q + 1) == n * q + n) by (nonlinear_arith);
    }
}

proof fn lemma_sum_bound(values: Seq<u8>)
    ensures
        0 <= sum_of(values) <= 255 * values.len(),
    decreases values.len(),
{
    if values.len() > 0 {
        lemma_sum_bound(values.drop_last());
    }
}

} // verus!
