//! Flashing all the images of an update package.

use crate::android_info::{lines_of, parse_android_info, LineModel};
use crate::bytes::{numbers_are_little_endian, read_u32, word_at};
use crate::fastboot::{download_command, flash, FastbootResponse, ResponseModel};
use crate::fastboot_flow::{
    are_remarks, ask, ask_download_limit, asked_from, asked_outcome, blocks_fit, bytes_sent, check_android_info,
    checked_var, chunk_size_for, data_events, demand_outcome, download_flow, download_payload, info_flow, info_run,
    is_end, limit_in, payload_is_delivered, piece_size, status_of, status_stands_behind_remarks, unanswered, warned,
    warning_views, Asked, FastbootEnd, FastbootError, FastbootEvent, FastbootTransport, InfoFailure, InfoFlow,
    InfoWarning, WarningModel,
};
use crate::header::u32_at;
use crate::sync_stream::{chunked, joined_chunks};
use crate::text::{
    all_white, chars_of, is_prefix, is_suffix, is_tight, opt_view, owned, split, str_eq, string_of, string_views,
    trim, trimmed, trimming_keeps_the_middle,
};
use vstd::prelude::*;

verus! {

/// An image that an update package can hold: the partition that it is for, its name in the
/// package, and whether it may be missing.
#[derive(Debug, Clone, Copy)]
pub struct ImageEntry {
    pub partition: &'static str,
    pub file: &'static str,
    pub optional: bool,
}

/// What an [`ImageEntry`] says.
pub struct ImageModel {
    pub partition: Seq<char>,
    pub file: Seq<char>,
    pub optional: bool,
}

impl View for ImageEntry {
    type V = ImageModel;

    open spec fn view(&self) -> ImageModel {
        ImageModel { partition: self.partition@, file: self.file@, optional: self.optional }
    }
}

/// An entry by its parts.
pub open spec fn entry(partition: Seq<char>, file: Seq<char>, optional: bool) -> ImageModel {
    ImageModel { partition, file, optional }
}

/// The images of an update package in the order in which they are flashed.
pub open spec fn image_table() -> Seq<ImageModel> {
    seq![
        entry("boot"@, "boot.img"@, false),
        entry("bootloader"@, "bootloader.img"@, true),
        entry("init_boot"@, "init_boot.img"@, true),
        entry("dtbo"@, "dtbo.img"@, true),
        entry("dts"@, "dt.img"@, true),
        entry("odm"@, "odm.img"@, true),
        entry("odm_dlkm"@, "odm_dlkm.img"@, true),
        entry("product"@, "product.img"@, true),
        entry("pvmfw"@, "pvmfw.img"@, true),
        entry("radio"@, "radio.img"@, true),
        entry("recovery"@, "recovery.img"@, true),
        entry("super"@, "super.img"@, true),
        entry("system"@, "system.img"@, false),
        entry("system_dlkm"@, "system_dlkm.img"@, true),
        entry("system_ext"@, "system_ext.img"@, true),
        entry("userdata"@, "userdata.img"@, true),
        entry("vbmeta"@, "vbmeta.img"@, true),
        entry("vbmeta_system"@, "vbmeta_system.img"@, true),
        entry("vbmeta_vendor"@, "vbmeta_vendor.img"@, true),
        entry("vendor"@, "vendor.img"@, true),
        entry("vendor_boot"@, "vendor_boot.img"@, true),
        entry("vendor_dlkm"@, "vendor_dlkm.img"@, true),
        entry("vendor_kernel_boot"@, "vendor_kernel_boot.img"@, true),
        entry("cache"@, "cache.img"@, true),
    ]
}

/// The views of a list of entries.
pub open spec fn entry_views(v: Seq<ImageEntry>) -> Seq<ImageModel> {
    Seq::new(v.len(), |i: int| v[i]@)
}

fn image(partition: &'static str, file: &'static str, optional: bool) -> (r: ImageEntry)
    ensures
        r@ == entry(partition@, file@, optional),
{
    ImageEntry { partition, file, optional }
}

/// The images of an update package in the order in which they are flashed.
pub fn aosp_images() -> (r: Vec<ImageEntry>)
    ensures
        entry_views(r@) == image_table(),
{
    let r = vec![
        image("boot", "boot.img", false),
        image("bootloader", "bootloader.img", true),
        image("init_boot", "init_boot.img", true),
        image("dtbo", "dtbo.img", true),
        image("dts", "dt.img", true),
        image("odm", "odm.img", true),
        image("odm_dlkm", "odm_dlkm.img", true),
        image("product", "product.img", true),
        image("pvmfw", "pvmfw.img", true),
        image("radio", "radio.img", true),
        image("recovery", "recovery.img", true),
        image("super", "super.img", true),
        image("system", "system.img", false),
        image("system_dlkm", "system_dlkm.img", true),
        image("system_ext", "system_ext.img", true),
        image("userdata", "userdata.img", true),
        image("vbmeta", "vbmeta.img", true),
        image("vbmeta_system", "vbmeta_system.img", true),
        image("vbmeta_vendor", "vbmeta_vendor.img", true),
        image("vendor", "vendor.img", true),
        image("vendor_boot", "vendor_boot.img", true),
        image("vendor_dlkm", "vendor_dlkm.img", true),
        image("vendor_kernel_boot", "vendor_kernel_boot.img", true),
        image("cache", "cache.img", true),
    ];
    assert(entry_views(r@) =~= image_table());
    r
}

/// What is to be done about an image.
#[derive(Debug, Clone, Copy)]
pub enum UpdateStep {
    /// It is flashed.
    Flash(ImageEntry),
    /// It is not in the package and need not be.
    Skip(ImageEntry),
    /// It is not in the package and must be: the update ends.
    Missing(ImageEntry),
}

/// What an [`UpdateStep`] says.
pub enum StepModel {
    Flash(ImageModel),
    Skip(ImageModel),
    Missing(ImageModel),
}

impl View for UpdateStep {
    type V = StepModel;

    open spec fn view(&self) -> StepModel {
        match *self {
            UpdateStep::Flash(e) => StepModel::Flash(e@),
            UpdateStep::Skip(e) => StepModel::Skip(e@),
            UpdateStep::Missing(e) => StepModel::Missing(e@),
        }
    }
}

/// The views of a list of steps.
pub open spec fn step_views(v: Seq<UpdateStep>) -> Seq<StepModel> {
    Seq::new(v.len(), |i: int| v[i]@)
}

/// The steps of an update with a package that holds the files with these names, from the image
/// at `i` on.
pub open spec fn steps_from(table: Seq<ImageModel>, names: Seq<Seq<char>>, i: int) -> Seq<StepModel>
    decreases table.len() - i,
{
    if i < 0 || i >= table.len() {
        Seq::empty()
    } else if names.contains(table[i].file) {
        seq![StepModel::Flash(table[i])] + steps_from(table, names, i + 1)
    } else if table[i].optional {
        seq![StepModel::Skip(table[i])] + steps_from(table, names, i + 1)
    } else {
        seq![StepModel::Missing(table[i])]
    }
}

fn has_name(names: &[String], name: &str) -> (r: bool)
    ensures
        r == string_views(names@).contains(name@),
{
    let ghost views = string_views(names@);
    let mut i: usize = 0;
    while i < names.len()
        invariant
            i <= names@.len(),
            views == string_views(names@),
            forall|k: int| 0 <= k < i ==> views[k] != name@,
        decreases names@.len() - i,
    {
        if str_eq(names[i].as_str(), name) {
            assert(views[i as int] == name@);
            return true;
        }
        i = i + 1;
    }
    assert(!views.contains(name@));
    false
}

/// The steps of an update with a package that holds the files with these names.
pub fn update_steps(names: &[String]) -> (r: Vec<UpdateStep>)
    ensures
        step_views(r@) == steps_from(image_table(), string_views(names@), 0),
{
    let table = aosp_images();
    let ghost t = image_table();
    let ghost n = string_views(names@);
    let ghost all = steps_from(t, n, 0);
    let mut out: Vec<UpdateStep> = Vec::new();
    let mut i: usize = 0;
    assert(step_views(out@) + all =~= all);
    while i < table.len()
        invariant
            i <= table@.len(),
            t == image_table(),
            entry_views(table@) == t,
            n == string_views(names@),
            all == steps_from(t, n, 0),
            all == step_views(out@) + steps_from(t, n, i as int),
        decreases table@.len() - i,
    {
        let e = table[i];
        let ghost before = step_views(out@);
        let ghost rest = steps_from(t, n, i + 1);
        assert(entry_views(table@)[i as int] == e@);
        if has_name(names, e.file) {
            out.push(UpdateStep::Flash(e));
            proof {
                assert(step_views(out@) =~= before.push(StepModel::Flash(t[i as int])));
                assert(before + (seq![StepModel::Flash(t[i as int])] + rest) =~= step_views(out@)
                    + rest);
            }
        } else if e.optional {
            out.push(UpdateStep::Skip(e));
            proof {
                assert(step_views(out@) =~= before.push(StepModel::Skip(t[i as int])));
                assert(before + (seq![StepModel::Skip(t[i as int])] + rest) =~= step_views(out@)
                    + rest);
            }
        } else {
            out.push(UpdateStep::Missing(e));
            assert(step_views(out@) =~= before + seq![StepModel::Missing(t[i as int])]);
            return out;
        }
        i = i + 1;
    }
    proof {
        assert(entry_views(table@).len() == table@.len());
        assert(step_views(out@) + Seq::<StepModel>::empty() =~= step_views(out@));
    }
    out
}

proof fn lemma_steps(table: Seq<ImageModel>, names: Seq<Seq<char>>, i: int)
    requires
        0 <= i <= table.len(),
    ensures
        ({
            let s = steps_from(table, names, i);
            &&& forall|k: int| 0 <= k < s.len() - 1 ==> !(#[trigger] s[k] is Missing)
            &&& forall|k: int|
                0 <= k < s.len() ==> match #[trigger] s[k] {
                    StepModel::Flash(e) => names.contains(e.file) && e == table[i + k],
                    StepModel::Skip(e) => e.optional && !names.contains(e.file) && e == table[i
                        + k],
                    StepModel::Missing(e) => !e.optional && !names.contains(e.file) && e
                        == table[i + k],
                }
            &&& (s.len() == table.len() - i && !(s.len() > 0 && s.last() is Missing)) || (s.len() > 0
                && s.len() <= table.len() - i && s.last() is Missing)
        }),
    decreases table.len() - i,
{
    if i < table.len() {
        lemma_steps(table, names, i + 1);
        let s = steps_from(table, names, i);
        if names.contains(table[i].file) || table[i].optional {
            let rest = steps_from(table, names, i + 1);
            assert forall|k: int| 0 <= k < s.len() - 1 implies !(#[trigger] s[k] is Missing) by {
                if k > 0 {
                    assert(s[k] == rest[k - 1]);
                }
            }
            assert forall|k: int| 0 <= k < s.len() implies match #[trigger] s[k] {
                StepModel::Flash(e) => names.contains(e.file) && e == table[i + k],
                StepModel::Skip(e) => e.optional && !names.contains(e.file) && e == table[i + k],
                StepModel::Missing(e) => !e.optional && !names.contains(e.file) && e == table[i
                    + k],
            } by {
                if k > 0 {
                    assert(s[k] == rest[k - 1]);
                }
            }
            if rest.len() > 0 {
                assert(s.last() == rest.last());
            }
        }
    }
}

/// Only images that the package holds are flashed, in the order of the table, and an update
/// goes through the whole table unless an image that must be there is missing.
pub proof fn update_follows_the_table(names: Seq<Seq<char>>)
    ensures
        ({
            let t = image_table();
            let s = steps_from(t, names, 0);
            &&& s.len() <= t.len()
            &&& forall|k: int|
                0 <= k < s.len() ==> match #[trigger] s[k] {
                    StepModel::Flash(e) => names.contains(e.file) && e == t[k],
                    StepModel::Skip(e) => e.optional && !names.contains(e.file) && e == t[k],
                    StepModel::Missing(e) => !e.optional && !names.contains(e.file) && e == t[k]
                        && k == s.len() - 1,
                }
            &&& s.len() < t.len() ==> s.len() > 0 && s.last() is Missing
        }),
{
    let t = image_table();
    lemma_steps(t, names, 0);
}

/// The partition that an image goes to: that of the current slot, if there are slots.
pub open spec fn slotted(partition: Seq<char>, slot: Option<Seq<char>>) -> Seq<char> {
    match slot {
        Some(s) => if is_suffix("_"@, partition) {
            partition
        } else {
            partition + "_"@ + s
        },
        None => partition,
    }
}

/// The partition that an image goes to.
pub fn partition_with_slot(partition: &str, slot: Option<&str>) -> (r: String)
    ensures
        r@ == slotted(
            partition@,
            match slot {
                Some(s) => Some(s@),
                None => None,
            },
        ),
{
    let mut r = owned(partition);
    if let Some(s) = slot {
        let chars = chars_of(partition);
        if !crate::text::ends_with(chars.as_slice(), "_") {
            r.append("_");
            r.append(s);
        }
    }
    r
}

/// Whether an image must be split before it is sent.
pub fn needs_split(limit: Option<usize>, size: usize) -> (r: bool)
    ensures
        r == match limit {
            Some(n) => n > 0 && size > n,
            None => false,
        },
{
    match limit {
        Some(n) => n > 0 && size > n,
        None => false,
    }
}

/// The number with which a sparse image begins.
pub const SPARSE_HEADER_MAGIC: u32 = 0xED26FF3A;

/// Whether an image is sparse already.
pub fn is_sparse_image(data: &[u8]) -> (r: bool)
    ensures
        r == (data@.len() >= 28 && u32_at(data@, 0) == SPARSE_HEADER_MAGIC),
{
    data.len() >= 28 && read_u32(data, 0) == SPARSE_HEADER_MAGIC
}

/// How an image of an update is sent.
#[derive(Debug, Clone, Copy, PartialEq, Eq, Structural)]
pub enum ImagePlan {
    /// Not at all: it holds nothing.
    Empty,
    /// Not at all: its size cannot be told to a bootloader.
    TooLarge,
    /// In one download.
    Whole,
    /// In parts no larger than the limit, cut from a sparse image or from a raw one.
    Split { limit: usize, sparse: bool },
}

/// How an image of an update is sent.
pub open spec fn plan_of(data: Seq<u8>, limit: Option<usize>) -> ImagePlan {
    if data.len() == 0 {
        ImagePlan::Empty
    } else if data.len() > u32::MAX {
        ImagePlan::TooLarge
    } else if limit is Some && 0 < limit->0 < data.len() {
        ImagePlan::Split {
            limit: limit->0,
            sparse: data.len() >= 28 && u32_at(data, 0) == SPARSE_HEADER_MAGIC,
        }
    } else {
        ImagePlan::Whole
    }
}

/// How an image of an update is sent.
pub fn plan_image(data: &[u8], limit: Option<usize>) -> (r: ImagePlan)
    ensures
        r == plan_of(data@, limit),
{
    let size: usize = data.len();
    if size == 0 {
        return ImagePlan::Empty;
    }
    if size as u64 > u32::MAX as u64 {
        return ImagePlan::TooLarge;
    }
    match limit {
        Some(n) if needs_split(limit, size) => ImagePlan::Split {
            limit: n,
            sparse: is_sparse_image(data),
        },
        _ => ImagePlan::Whole,
    }
}

/// The word with which a boot image begins.
pub open spec fn boot_magic() -> Seq<u8> {
    seq![65u8, 78u8, 68u8, 82u8, 79u8, 73u8, 68u8, 33u8]
}

/// Whether a kernel file is a boot image already.
pub fn is_boot_image(data: &[u8]) -> (r: bool)
    ensures
        r == (data@.len() >= 8 && data@.take(8) == boot_magic()),
{
    if data.len() < 8 {
        return false;
    }
    let magic: [u8; 8] = [65u8, 78u8, 68u8, 82u8, 79u8, 73u8, 68u8, 33u8];
    assert(magic@ =~= boot_magic());
    let head = vstd::slice::slice_subrange(data, 0, 8);
    assert(head@ =~= data@.take(8));
    crate::text::bytes_eq(head, magic.as_slice())
}

/// What sending a payload and writing it to a partition comes to, the reply to the writing
/// included.
pub open spec fn flash_flow(
    log: Seq<FastbootEvent>,
    packets: Seq<ResponseModel>,
    payload: Seq<u8>,
    chunk: nat,
    partition: Seq<char>,
) -> (Seq<FastbootEvent>, Option<(FastbootEnd, Seq<ResponseModel>)>) {
    let (sent, end) = if payload.len() > u32::MAX {
        (log, Some((FastbootEnd::TooLarge(payload.len()), packets)))
    } else {
        download_flow(log, packets, payload, chunk)
    };
    match end {
        Some((FastbootEnd::Done(_), rest)) => {
            let told = sent.push(FastbootEvent::Command("flash:"@ + partition));
            match status_of(rest) {
                None => (told, None),
                Some((reply, behind)) => match reply {
                    ResponseModel::Fail(m) => (
                        told,
                        Some((FastbootEnd::CommandRefused(m), behind)),
                    ),
                    _ => (told, Some((FastbootEnd::Done(reply), behind))),
                },
            }
        },
        _ => (sent, end),
    }
}

/// A limit as a number.
pub open spec fn limit_view(limit: Option<usize>) -> Option<nat> {
    match limit {
        Some(n) => Some(n as nat),
        None => None,
    }
}

fn flash_payload<T: FastbootTransport>(
    transport: &mut T,
    payload: &[u8],
    chunk_size: usize,
    partition: &str,
) -> (r: Result<FastbootResponse, FastbootError>)
    requires
        chunk_size > 0,
    ensures
        final(transport).faults() >= old(transport).faults(),
        r matches Err(FastbootError::Io(_)) <==> final(transport).faults() > old(transport).faults(),
        final(transport).faults() == old(transport).faults() ==> ({
            let (log, end) = flash_flow(
                old(transport).log(),
                old(transport).packets(),
                payload@,
                chunk_size as nat,
                partition@,
            );
            &&& final(transport).log() == log
            &&& end matches Some((e, rest))
            &&& final(transport).packets() == rest
            &&& is_end(r, e)
        }),
{
    match download_payload(transport, payload, chunk_size) {
        Ok(_) => {},
        Err(e) => {
            return Err(e);
        },
    }
    match transport.send_cmd(flash(partition).as_str()) {
        Ok(()) => {},
        Err(e) => {
            return Err(FastbootError::Io(e));
        },
    }
    match transport.recv_response() {
        Ok(FastbootResponse::Fail(m)) => Err(FastbootError::CommandRefused(m)),
        Ok(x) => Ok(x),
        Err(e) => Err(FastbootError::Io(e)),
    }
}

/// Sends an image that need not be split and writes it to a partition.
pub fn flash_image<T: FastbootTransport>(
    transport: &mut T,
    image: &[u8],
    limit: Option<usize>,
    partition: &str,
) -> (r: Result<FastbootResponse, FastbootError>)
    ensures
        final(transport).faults() >= old(transport).faults(),
        r matches Err(FastbootError::Io(_)) <==> final(transport).faults() > old(transport).faults(),
        if image@.len() == 0 {
            r is Err && (r->Err_0 is Empty) && *final(transport) == *old(transport)
        } else {
            final(transport).faults() == old(transport).faults() ==> ({
                let (log, end) = flash_flow(
                    old(transport).log(),
                    old(transport).packets(),
                    image@,
                    piece_size(limit_view(limit)),
                    partition@,
                );
                &&& final(transport).log() == log
                &&& end matches Some((e, rest))
                &&& final(transport).packets() == rest
                &&& is_end(r, e)
            })
        },
{
    if image.len() == 0 {
        return Err(FastbootError::Empty);
    }
    let chunk: usize = chunk_size_for(limit);
    flash_payload(transport, image, chunk, partition)
}

/// The views of a list of payloads.
pub open spec fn payload_views(v: Seq<Vec<u8>>) -> Seq<Seq<u8>> {
    Seq::new(v.len(), |i: int| v[i]@)
}

/// What flashing the parts of a split image one after another comes to, when `done` of them are
/// done already: it ends with the first that fails, and tells how many were done before.
pub open spec fn split_flow(
    log: Seq<FastbootEvent>,
    packets: Seq<ResponseModel>,
    parts: Seq<Seq<u8>>,
    partition: Seq<char>,
    done: nat,
) -> (Seq<FastbootEvent>, Option<(Result<nat, (nat, FastbootEnd)>, Seq<ResponseModel>)>)
    decreases parts.len(),
{
    if parts.len() == 0 {
        (log, Some((Ok(done), packets)))
    } else {
        let (sent, end) = flash_flow(log, packets, parts[0], usize::MAX as nat, partition);
        match end {
            None => (sent, None),
            Some((FastbootEnd::Done(_), rest)) => split_flow(
                sent,
                rest,
                parts.skip(1),
                partition,
                done + 1,
            ),
            Some((e, rest)) => (sent, Some((Err((done, e)), rest))),
        }
    }
}

/// An outcome is this end.
pub open spec fn is_split_end(
    r: Result<usize, (usize, FastbootError)>,
    end: Result<nat, (nat, FastbootEnd)>,
) -> bool {
    match (r, end) {
        (Ok(n), Ok(m)) => n == m,
        (Err((n, x)), Err((m, e))) => n == m && is_end(Err(x), e),
        _ => false,
    }
}

/// One more part that is flashed after those that are.
proof fn lemma_split_push(
    log: Seq<FastbootEvent>,
    packets: Seq<ResponseModel>,
    parts: Seq<Seq<u8>>,
    part: Seq<u8>,
    partition: Seq<char>,
    done: nat,
)
    ensures
        ({
            let (sent, end) = split_flow(log, packets, parts, partition, done);
            end matches Some((Ok(n), rest)) ==> {
                let (more, last) = flash_flow(sent, rest, part, usize::MAX as nat, partition);
                last matches Some((FastbootEnd::Done(_), behind)) ==> split_flow(
                    log,
                    packets,
                    parts.push(part),
                    partition,
                    done,
                ) == (more, Some((Ok::<nat, (nat, FastbootEnd)>(n + 1), behind)))
            }
        }),
    decreases parts.len(),
{
    reveal_with_fuel(split_flow, 2);
    let all = parts.push(part);
    if parts.len() == 0 {
        assert(all[0] == part);
        assert(all.skip(1) =~= Seq::<Seq<u8>>::empty());
    } else {
        assert(all[0] == parts[0]);
        assert(all.skip(1) =~= parts.skip(1).push(part));
        let (sent, end) = flash_flow(log, packets, parts[0], usize::MAX as nat, partition);
        if let Some((FastbootEnd::Done(_), rest)) = end {
            lemma_split_push(sent, rest, parts.skip(1), part, partition, done + 1);
        }
    }
}

/// The first `n` parts of a split image are flashed, and there are more.
pub open spec fn parts_done(
    n: nat,
    log: Seq<FastbootEvent>,
    packets: Seq<ResponseModel>,
    parts: Seq<Seq<u8>>,
    partition: Seq<char>,
) -> bool {
    n < parts.len() && (split_flow(log, packets, parts.take(n as int), partition, 0).1 matches Some(
        (Ok(m), _),
    ) && m == n)
}

/// Flashes the parts of an image that was split, and counts those that are done.
pub fn flash_split<T: FastbootTransport>(
    transport: &mut T,
    parts: &[Vec<u8>],
    partition: &str,
) -> (r: Result<usize, (usize, FastbootError)>)
    ensures
        final(transport).faults() >= old(transport).faults(),
        (r matches Err((_, FastbootError::Io(_)))) <==> final(transport).faults() > old(transport).faults(),
        final(transport).faults() == old(transport).faults() ==> ({
            let (log, end) = split_flow(
                old(transport).log(),
                old(transport).packets(),
                payload_views(parts@),
                partition@,
                0,
            );
            &&& final(transport).log() == log
            &&& end matches Some((e, rest))
            &&& final(transport).packets() == rest
            &&& is_split_end(r, e)
        }),
        r matches Err((n, _)) ==> parts_done(
            n as nat,
            old(transport).log(),
            old(transport).packets(),
            payload_views(parts@),
            partition@,
        ),
{
    let ghost views = payload_views(parts@);
    let ghost whole = split_flow(transport.log(), transport.packets(), views, partition@, 0);
    let mut i: usize = 0;
    assert(views.skip(0) =~= views);
    while i < parts.len()
        invariant
            i <= parts@.len(),
            views == payload_views(parts@),
            whole == split_flow(
                old(transport).log(),
                old(transport).packets(),
                views,
                partition@,
                0,
            ),
            transport.faults() == old(transport).faults(),
            whole == split_flow(
                transport.log(),
                transport.packets(),
                views.skip(i as int),
                partition@,
                i as nat,
            ),
            split_flow(
                old(transport).log(),
                old(transport).packets(),
                views.take(i as int),
                partition@,
                0,
            ) == (
                transport.log(),
                Some((Ok::<nat, (nat, FastbootEnd)>(i as nat), transport.packets())),
            ),
        decreases parts@.len() - i,
    {
        let ghost left = views.skip(i as int);
        assert(left[0] == parts@[i as int]@);
        assert(left.skip(1) =~= views.skip(i + 1));
        proof {
            assert(views.take(i as int).push(views[i as int]) =~= views.take(i + 1));
            lemma_split_push(
                old(transport).log(),
                old(transport).packets(),
                views.take(i as int),
                views[i as int],
                partition@,
                0,
            );
        }
        match flash_payload(transport, parts[i].as_slice(), usize::MAX, partition) {
            Ok(_) => {},
            Err(e) => {
                return Err((i, e));
            },
        }
        i = i + 1;
    }
    assert(views.skip(i as int).len() == 0);
    Ok(i)
}

/// What an update needs to know of the bootloader.
#[derive(Debug)]
pub struct UpdateSession {
    /// The most that it takes at once.
    pub limit: Option<usize>,
    /// The slot that is current.
    pub slot: Option<String>,
    /// Its variables that are shown to the user, with their values where there are any.
    pub shown: Vec<Option<String>>,
}

/// What a variable's reply says.
pub open spec fn value_in(reply: ResponseModel) -> Option<Seq<char>> {
    match reply {
        ResponseModel::Okay(s) => Some(s),
        _ => None,
    }
}

/// The slot that a reply tells, if any.
pub open spec fn slot_in(reply: ResponseModel) -> Option<Seq<char>> {
    match reply {
        ResponseModel::Okay(s) => if trimmed(s).len() > 0 {
            Some(trimmed(s))
        } else {
            None
        },
        _ => None,
    }
}

/// What asking for variables one after another comes to: the values, what is sent, and the
/// replies after them.
pub open spec fn asked_all(
    log: Seq<FastbootEvent>,
    packets: Seq<ResponseModel>,
    names: Seq<Seq<char>>,
) -> (Seq<ResponseModel>, Seq<FastbootEvent>, Seq<ResponseModel>)
    decreases names.len(),
{
    if names.len() == 0 {
        (Seq::empty(), log, packets)
    } else {
        let (values, sent, left) = asked_all(log, packets, names.drop_last());
        let asked = sent.push(FastbootEvent::Command("getvar:"@ + names.last()));
        match status_of(left) {
            Some((reply, rest)) => (values.push(reply), asked, rest),
            None => (values, asked, left),
        }
    }
}

/// The variables that are shown to the user before an update.
pub open spec fn shown_names() -> Seq<Seq<char>> {
    seq!["version-bootloader"@, "version-baseband"@, "serialno"@]
}

/// What getting ready for an update comes to: the variables are shown, the demands of the
/// package are checked, and the limit and the slot are asked for.
pub open spec fn ready(
    log: Seq<FastbootEvent>,
    packets: Seq<ResponseModel>,
    lines: Seq<LineModel>,
    warnings: Seq<WarningModel>,
) -> (Seq<ResponseModel>, InfoFlow, (Seq<ResponseModel>, Seq<FastbootEvent>, Seq<ResponseModel>)) {
    let (shown, sent, left) = asked_all(log, packets, shown_names());
    let checked = info_flow(
        lines,
        InfoFlow { log: sent, packets: left, warnings, failure: None },
    );
    (
        shown,
        checked,
        asked_all(checked.log, checked.packets, seq!["max-download-size"@, "current-slot"@]),
    )
}

/// The state of the conversation after some questions.
pub open spec fn log_after(log: Seq<FastbootEvent>, asked: Seq<Asked>) -> Seq<FastbootEvent> {
    if asked.len() == 0 {
        log
    } else {
        asked.last().log
    }
}

/// The replies left after some questions.
pub open spec fn packets_after(packets: Seq<ResponseModel>, asked: Seq<Asked>) -> Seq<
    ResponseModel,
> {
    if asked.len() == 0 {
        packets
    } else {
        asked.last().packets
    }
}

/// These variables were asked for one after another.
pub open spec fn asked_in_turn(
    log: Seq<FastbootEvent>,
    packets: Seq<ResponseModel>,
    names: Seq<Seq<char>>,
    asked: Seq<Asked>,
) -> bool {
    &&& asked.len() == names.len()
    &&& forall|i: int|
        0 <= i < names.len() ==> asked_from(
            log_after(log, asked.take(i)),
            packets_after(packets, asked.take(i)),
            names[i],
            #[trigger] asked[i],
        )
}

/// What an answer says to someone who reads it with `f`.
pub open spec fn said<A>(a: Asked, f: spec_fn(ResponseModel) -> Option<A>) -> Option<A> {
    match a.answer {
        Some(x) => f(x),
        None => None,
    }
}

/// What the outcome of getting ready means when these questions were asked: `shown` for what the
/// user is shown, `demands` for the demands of the package, and `last` for the limit and the slot.
pub open spec fn ready_run<T: FastbootTransport>(
    r: Result<UpdateSession, InfoFailure>,
    lines: Seq<LineModel>,
    before: T,
    after: T,
    warnings: Seq<WarningModel>,
    warnings_after: Seq<WarningModel>,
    shown: Seq<Asked>,
    demands: Seq<Asked>,
    last: Seq<Asked>,
) -> bool {
    &&& asked_in_turn(before.log(), before.packets(), shown_names(), shown)
    &&& before.faults() + unanswered(shown) + unanswered(demands) + unanswered(last)
        <= after.faults()
    &&& info_run(
        lines,
        demands,
        InfoFlow {
            log: log_after(before.log(), shown),
            packets: packets_after(before.packets(), shown),
            warnings,
            failure: None,
        },
    ) matches Some(flow)
    &&& flow.warnings == warnings_after
    &&& match r {
        Err(f) => flow.failure == Some(f@) && last.len() == 0 && after.log() == flow.log
            && after.packets() == flow.packets,
        Ok(s) => {
            &&& flow.failure is None
            &&& asked_in_turn(
                flow.log,
                flow.packets,
                seq!["max-download-size"@, "current-slot"@],
                last,
            )
            &&& after.log() == log_after(flow.log, last)
            &&& after.packets() == packets_after(flow.packets, last)
            &&& limit_view(s.limit) == said(last[0], |x: ResponseModel| limit_in(x))
            &&& opt_view(s.slot) == said(last[1], |x: ResponseModel| slot_in(x))
            &&& s.shown@.len() == 3
            &&& forall|i: int|
                0 <= i < 3 ==> opt_view(#[trigger] s.shown@[i]) == said(
                    shown[i],
                    |x: ResponseModel| value_in(x),
                )
        },
    }
}

/// What the outcome of getting ready means, whether or not the connection failed meanwhile: it is
/// that of the replies which came.
pub open spec fn got_ready<T: FastbootTransport>(
    r: Result<UpdateSession, InfoFailure>,
    lines: Seq<LineModel>,
    before: T,
    after: T,
    warnings: Seq<WarningModel>,
    warnings_after: Seq<WarningModel>,
) -> bool {
    exists|shown: Seq<Asked>, demands: Seq<Asked>, last: Seq<Asked>|
        #[trigger] ready_run(
            r,
            lines,
            before,
            after,
            warnings,
            warnings_after,
            shown,
            demands,
            last,
        )
}

/// The answer that a question got, as of where it left the conversation.
spec fn asked_now<T: FastbootTransport>(reply: Option<FastbootResponse>, after: T) -> Asked {
    Asked {
        answer: match reply {
            Some(x) => Some(x@),
            None => None,
        },
        log: after.log(),
        packets: after.packets(),
    }
}

/// One question more in turn.
proof fn lemma_one_more(
    log: Seq<FastbootEvent>,
    packets: Seq<ResponseModel>,
    names: Seq<Seq<char>>,
    asked: Seq<Asked>,
    name: Seq<char>,
    a: Asked,
)
    requires
        asked_in_turn(log, packets, names, asked),
        asked_from(log_after(log, asked), packets_after(packets, asked), name, a),
    ensures
        asked_in_turn(log, packets, names.push(name), asked.push(a)),
        unanswered(asked.push(a)) == unanswered(asked) + if a.answer is None {
            1nat
        } else {
            0nat
        },
{
    let all = asked.push(a);
    assert(all.drop_last() =~= asked);
    assert forall|i: int| 0 <= i < all.len() implies asked_from(
        log_after(log, all.take(i)),
        packets_after(packets, all.take(i)),
        names.push(name)[i],
        #[trigger] all[i],
    ) by {
        if i < asked.len() {
            assert(all.take(i) =~= asked.take(i));
            assert(all[i] == asked[i]);
        } else {
            assert(all.take(i) =~= asked);
        }
    }
}

fn value_of(reply: Option<FastbootResponse>) -> (r: Option<String>)
    ensures
        reply matches Some(x) ==> opt_view(r) == value_in(x@),
        reply is None ==> r is None,
{
    match reply {
        Some(FastbootResponse::Okay(s)) => Some(s),
        _ => None,
    }
}

fn slot_of(reply: Option<FastbootResponse>) -> (r: Option<String>)
    ensures
        reply matches Some(x) ==> opt_view(r) == slot_in(x@),
        reply is None ==> r is None,
{
    match reply {
        Some(FastbootResponse::Okay(s)) => {
            let chars = chars_of(s.as_str());
            let t = trim(chars.as_slice());
            if t.len() > 0 {
                Some(string_of(t))
            } else {
                None
            }
        },
        _ => None,
    }
}

proof fn lemma_asked_one(log: Seq<FastbootEvent>, packets: Seq<ResponseModel>, names: Seq<Seq<char>>)
    requires
        names.len() > 0,
    ensures
        ({
            let (values, sent, left) = asked_all(log, packets, names.drop_last());
            status_of(left) matches Some((reply, rest)) ==> asked_all(log, packets, names) == (
                values.push(reply),
                sent.push(FastbootEvent::Command("getvar:"@ + names.last())),
                rest,
            )
        }),
{
}

/// Gets ready for an update: shows some variables, checks whether the package is for the device,
/// and asks for what the flashing needs to know.
pub fn begin_update<T: FastbootTransport>(
    transport: &mut T,
    android_info: &str,
    warnings: &mut Vec<InfoWarning>,
) -> (r: Result<UpdateSession, InfoFailure>)
    ensures
        final(transport).data() == old(transport).data(),
        final(transport).faults() >= old(transport).faults(),
        final(transport).faults() == old(transport).faults() ==> ({
            let (shown, checked, (values, log, packets)) = ready(
                old(transport).log(),
                old(transport).packets(),
                lines_of(split(android_info@, '\n')),
                warning_views(old(warnings)@),
            );
            &&& warning_views(final(warnings)@) == checked.warnings
            &&& match r {
                Err(f) => checked.failure == Some(f@) && final(transport).log() == checked.log
                    && final(transport).packets() == checked.packets,
                Ok(s) => {
                    &&& checked.failure is None
                    &&& final(transport).log() == log
                    &&& final(transport).packets() == packets
                    &&& values.len() == 2
                    &&& match s.limit {
                        Some(n) => limit_in(values[0]) == Some(n as nat),
                        None => limit_in(values[0]) is None,
                    }
                    &&& opt_view(s.slot) == slot_in(values[1])
                    &&& shown.len() == 3 && s.shown@.len() == 3
                    &&& forall|i: int|
                        0 <= i < 3 ==> opt_view(#[trigger] s.shown@[i]) == value_in(shown[i])
                },
            }
        }),
        got_ready(
            r,
            lines_of(split(android_info@, '\n')),
            *old(transport),
            *final(transport),
            warning_views(old(warnings)@),
            warning_views(final(warnings)@),
        ),
{
    let ghost log0 = transport.log();
    let ghost packets0 = transport.packets();
    let ghost f0 = transport.faults();
    let ghost names = shown_names();
    proof {
        assert(names.take(3) =~= names);
        assert(names.take(3).drop_last() =~= names.take(2));
        assert(names.take(2).drop_last() =~= names.take(1));
        assert(names.take(1).drop_last() =~= Seq::<Seq<char>>::empty());
        assert(names.take(0) =~= Seq::<Seq<char>>::empty());
        lemma_asked_one(log0, packets0, names.take(1));
        lemma_asked_one(log0, packets0, names.take(2));
        lemma_asked_one(log0, packets0, names.take(3));
    }
    let mut shown: Vec<Option<String>> = Vec::new();
    let ghost none = Seq::<Asked>::empty();
    let ghost no_names = Seq::<Seq<char>>::empty();
    assert(asked_in_turn(log0, packets0, no_names, none));
    let a = ask(transport, "version-bootloader");
    let ghost t1 = none.push(asked_now(a, *transport));
    proof {
        lemma_one_more(log0, packets0, no_names, none, names[0], asked_now(a, *transport));
    }
    shown.push(value_of(a));
    let b = ask(transport, "version-baseband");
    let ghost t2 = t1.push(asked_now(b, *transport));
    proof {
        lemma_one_more(
            log0,
            packets0,
            no_names.push(names[0]),
            t1,
            names[1],
            asked_now(b, *transport),
        );
    }
    shown.push(value_of(b));
    let c = ask(transport, "serialno");
    let ghost t3 = t2.push(asked_now(c, *transport));
    proof {
        lemma_one_more(
            log0,
            packets0,
            no_names.push(names[0]).push(names[1]),
            t2,
            names[2],
            asked_now(c, *transport),
        );
        assert(no_names.push(names[0]).push(names[1]).push(names[2]) =~= names);
    }
    shown.push(value_of(c));
    let ghost w0 = warning_views(warnings@);
    let ghost mid = *transport;
    let ghost (shown_values, sent, left) = asked_all(log0, packets0, names);
    proof {
        if transport.faults() == f0 {
            assert(transport.log() == sent);
            assert(transport.packets() == left);
            assert(shown_values.len() == 3);
        }
    }
    let lines = parse_android_info(android_info);
    let ghost line_models = lines_of(split(android_info@, '\n'));
    let verdict = check_android_info(transport, lines.as_slice(), warnings);
    let ghost demands = choose|asked: Seq<Asked>|
        mid.faults() + #[trigger] unanswered(asked) <= transport.faults() && info_run(
            line_models,
            asked,
            InfoFlow { log: mid.log(), packets: mid.packets(), warnings: w0, failure: None },
        ) == Some(
            InfoFlow {
                log: transport.log(),
                packets: transport.packets(),
                warnings: warning_views(warnings@),
                failure: match verdict {
                    Ok(()) => None,
                    Err(f) => Some(f@),
                },
            },
        );
    match verdict {
        Ok(()) => {},
        Err(f) => {
            assert(ready_run(
                Err(f),
                line_models,
                *old(transport),
                *transport,
                w0,
                warning_views(warnings@),
                t3,
                demands,
                none,
            ));
            return Err(f);
        },
    }
    let ghost log1 = transport.log();
    let ghost packets1 = transport.packets();
    let ghost two = seq!["max-download-size"@, "current-slot"@];
    proof {
        assert(two.take(2) =~= two);
        assert(two.take(2).drop_last() =~= two.take(1));
        assert(two.take(1).drop_last() =~= Seq::<Seq<char>>::empty());
        lemma_asked_one(log1, packets1, two.take(1));
        lemma_asked_one(log1, packets1, two.take(2));
    }
    let ghost before_limit = *transport;
    let limit = ask_download_limit(transport);
    let ghost asked_limit = Asked {
        answer: if transport.faults() == before_limit.faults() {
            Some((status_of(packets1)->0).0)
        } else {
            None
        },
        log: transport.log(),
        packets: transport.packets(),
    };
    let ghost l1 = none.push(asked_limit);
    proof {
        assert(asked_in_turn(log1, packets1, no_names, none));
        lemma_one_more(log1, packets1, no_names, none, two[0], asked_limit);
    }
    let reply = ask(transport, "current-slot");
    let ghost l2 = l1.push(asked_now(reply, *transport));
    proof {
        lemma_one_more(
            log1,
            packets1,
            no_names.push(two[0]),
            l1,
            two[1],
            asked_now(reply, *transport),
        );
        assert(no_names.push(two[0]).push(two[1]) =~= two);
    }
    let slot = slot_of(reply);
    let session = UpdateSession { limit, slot, shown };
    assert(ready_run(
        Ok(session),
        line_models,
        *old(transport),
        *transport,
        w0,
        warning_views(warnings@),
        t3,
        demands,
        l2,
    ));
    Ok(session)
}

/// A log goes on from another with nothing but questions for variables.
pub open spec fn only_asks(before: Seq<FastbootEvent>, after: Seq<FastbootEvent>) -> bool {
    &&& before.len() <= after.len()
    &&& after.take(before.len() as int) == before
    &&& forall|i: int| before.len() <= i < after.len() ==> is_question(#[trigger] after[i])
}

/// A question for a variable.
pub open spec fn is_question(e: FastbootEvent) -> bool {
    e matches FastbootEvent::Command(c) && is_prefix("getvar:"@, c)
}

proof fn lemma_asks(before: Seq<FastbootEvent>, middle: Seq<FastbootEvent>, name: Seq<char>)
    requires
        only_asks(before, middle),
    ensures
        only_asks(before, middle.push(FastbootEvent::Command("getvar:"@ + name))),
{
    let c = "getvar:"@ + name;
    let after = middle.push(FastbootEvent::Command(c));
    assert(c.take("getvar:"@.len() as int) =~= "getvar:"@);
    assert(after.take(before.len() as int) =~= middle.take(before.len() as int));
    assert forall|i: int| before.len() <= i < after.len() implies is_question(#[trigger] after[i]) by {
        if i < middle.len() {
            assert(after[i] == middle[i]);
        }
    }
}

proof fn lemma_asked_all_asks(
    before: Seq<FastbootEvent>,
    log: Seq<FastbootEvent>,
    packets: Seq<ResponseModel>,
    names: Seq<Seq<char>>,
)
    requires
        only_asks(before, log),
    ensures
        only_asks(before, asked_all(log, packets, names).1),
    decreases names.len(),
{
    if names.len() > 0 {
        lemma_asked_all_asks(before, log, packets, names.drop_last());
        lemma_asks(before, asked_all(log, packets, names.drop_last()).1, names.last());
    }
}

proof fn lemma_info_flow_asks(before: Seq<FastbootEvent>, lines: Seq<LineModel>, from: InfoFlow)
    requires
        only_asks(before, from.log),
    ensures
        only_asks(before, info_flow(lines, from).log),
    decreases lines.len(),
{
    if lines.len() > 0 {
        let rest = lines.skip(1);
        match lines[0] {
            LineModel::Blank => {
                lemma_info_flow_asks(before, rest, from);
            },
            LineModel::Unknown(s) => {
                lemma_info_flow_asks(
                    before,
                    rest,
                    InfoFlow { warnings: from.warnings.push(WarningModel::Syntax(s)), ..from },
                );
            },
            LineModel::Require(r) => {
                lemma_info_flow_asks(before, rest, from);
                lemma_asks(before, from.log, checked_var(r));
                let asked = from.log.push(FastbootEvent::Command("getvar:"@ + checked_var(r)));
                if let Some((reply, packets)) = status_of(from.packets) {
                    let (failure, warning) = demand_outcome(r, reply);
                    let next = InfoFlow {
                        log: asked,
                        packets,
                        warnings: warned(from.warnings, warning),
                        failure,
                    };
                    if failure is None {
                        lemma_info_flow_asks(before, rest, next);
                    }
                }
            },
        }
    }
}

/// Getting ready for an update only asks a device for variables: one that the package is not
/// for is told to do nothing and sent nothing.
pub proof fn getting_ready_writes_nothing(
    log: Seq<FastbootEvent>,
    packets: Seq<ResponseModel>,
    lines: Seq<LineModel>,
    warnings: Seq<WarningModel>,
)
    ensures
        ({
            let (_, checked, (_, after, _)) = ready(log, packets, lines, warnings);
            only_asks(log, checked.log) && only_asks(log, after)
        }),
{
    let (shown, sent, left) = asked_all(log, packets, shown_names());
    assert(log.take(log.len() as int) =~= log);
    lemma_asked_all_asks(log, log, packets, shown_names());
    let from = InfoFlow { log: sent, packets: left, warnings, failure: None };
    lemma_info_flow_asks(log, lines, from);
    let checked = info_flow(lines, from);
    lemma_asked_all_asks(
        log,
        checked.log,
        checked.packets,
        seq!["max-download-size"@, "current-slot"@],
    );
}

proof fn lemma_in_turn_asks(
    before: Seq<FastbootEvent>,
    log: Seq<FastbootEvent>,
    packets: Seq<ResponseModel>,
    names: Seq<Seq<char>>,
    asked: Seq<Asked>,
)
    requires
        only_asks(before, log),
        asked_in_turn(log, packets, names, asked),
    ensures
        only_asks(before, log_after(log, asked)),
    decreases names.len(),
{
    if names.len() > 0 {
        let fewer = asked.drop_last();
        assert forall|i: int| 0 <= i < fewer.len() implies asked_from(
            log_after(log, fewer.take(i)),
            packets_after(packets, fewer.take(i)),
            names.drop_last()[i],
            #[trigger] fewer[i],
        ) by {
            assert(fewer.take(i) =~= asked.take(i));
            assert(asked[i] == fewer[i]);
        }
        lemma_in_turn_asks(before, log, packets, names.drop_last(), fewer);
        assert(asked.take(asked.len() - 1) =~= fewer);
        assert(asked[asked.len() - 1] == asked.last());
        lemma_asks(before, log_after(log, fewer), names.last());
    }
}

proof fn lemma_info_run_asks(
    before: Seq<FastbootEvent>,
    lines: Seq<LineModel>,
    asked: Seq<Asked>,
    from: InfoFlow,
)
    requires
        only_asks(before, from.log),
    ensures
        info_run(lines, asked, from) matches Some(flow) ==> only_asks(before, flow.log),
    decreases lines.len(),
{
    if lines.len() > 0 {
        let rest = lines.skip(1);
        match lines[0] {
            LineModel::Blank => {
                lemma_info_run_asks(before, rest, asked, from);
            },
            LineModel::Unknown(s) => {
                lemma_info_run_asks(
                    before,
                    rest,
                    asked,
                    InfoFlow { warnings: from.warnings.push(WarningModel::Syntax(s)), ..from },
                );
            },
            LineModel::Require(r) => {
                lemma_info_run_asks(before, rest, asked, from);
                lemma_asks(before, from.log, checked_var(r));
                if asked.len() > 0 && asked_from(
                    from.log,
                    from.packets,
                    checked_var(r),
                    asked[0],
                ) {
                    let (failure, warning) = asked_outcome(r, asked[0]);
                    let next = InfoFlow {
                        log: asked[0].log,
                        packets: asked[0].packets,
                        warnings: warned(from.warnings, warning),
                        failure,
                    };
                    lemma_info_run_asks(before, rest, asked.skip(1), next);
                }
            },
        }
    }
}

/// Whatever fails while an update is got ready, nothing but questions for variables went out.
#[verifier::spinoff_prover]
#[verifier::rlimit(30)]
pub proof fn failures_write_nothing<T: FastbootTransport>(
    r: Result<UpdateSession, InfoFailure>,
    lines: Seq<LineModel>,
    before: T,
    after: T,
    warnings: Seq<WarningModel>,
    warnings_after: Seq<WarningModel>,
)
    requires
        got_ready(r, lines, before, after, warnings, warnings_after),
    ensures
        only_asks(before.log(), after.log()),
{
    let (shown, demands, last) = choose|shown: Seq<Asked>, demands: Seq<Asked>, last: Seq<Asked>|
        #[trigger] ready_run(
            r,
            lines,
            before,
            after,
            warnings,
            warnings_after,
            shown,
            demands,
            last,
        );
    assert(before.log().take(before.log().len() as int) =~= before.log());
    lemma_in_turn_asks(before.log(), before.log(), before.packets(), shown_names(), shown);
    let from = InfoFlow {
        log: log_after(before.log(), shown),
        packets: packets_after(before.packets(), shown),
        warnings,
        failure: None,
    };
    lemma_info_run_asks(before.log(), lines, demands, from);
    let flow = info_run(lines, demands, from)->0;
    if r is Ok {
        lemma_in_turn_asks(
            before.log(),
            flow.log,
            flow.packets,
            seq!["max-download-size"@, "current-slot"@],
            last,
        );
    }
}

/// The partition of an image in an update.
pub open spec fn target_of(session: UpdateSession, entry: ImageEntry) -> Seq<char> {
    slotted(entry.partition@, opt_view(session.slot))
}

/// An image in a package: its bytes, and the parts that it is cut into where it must be split.
pub struct PackedImage {
    pub data: Seq<u8>,
    pub parts: Seq<Seq<u8>>,
}

/// How flashing an image ends.
pub enum ImageEnd {
    /// It is flashed, in so many downloads.
    Done(nat),
    /// It holds nothing.
    Empty,
    /// It is not, after so many downloads that are done.
    Failed(nat, FastbootEnd),
}

/// What flashing an image of an update comes to.
pub open spec fn image_flow(
    log: Seq<FastbootEvent>,
    packets: Seq<ResponseModel>,
    image: PackedImage,
    limit: Option<usize>,
    partition: Seq<char>,
) -> (Seq<FastbootEvent>, Option<(ImageEnd, Seq<ResponseModel>)>) {
    match plan_of(image.data, limit) {
        ImagePlan::Empty => (log, Some((ImageEnd::Empty, packets))),
        ImagePlan::TooLarge | ImagePlan::Whole => {
            let (sent, end) = flash_flow(
                log,
                packets,
                image.data,
                piece_size(limit_view(limit)),
                partition,
            );
            (
                sent,
                match end {
                    None => None,
                    Some((FastbootEnd::Done(_), rest)) => Some((ImageEnd::Done(1), rest)),
                    Some((e, rest)) => Some((ImageEnd::Failed(0, e), rest)),
                },
            )
        },
        ImagePlan::Split { .. } => {
            let (sent, end) = split_flow(log, packets, image.parts, partition, 0);
            (
                sent,
                match end {
                    None => None,
                    Some((Ok(n), rest)) => Some((ImageEnd::Done(n), rest)),
                    Some((Err((n, e)), rest)) => Some((ImageEnd::Failed(n, e), rest)),
                },
            )
        },
    }
}

/// An outcome is this end.
pub open spec fn is_image_end(r: Result<usize, (usize, FastbootError)>, end: ImageEnd) -> bool {
    match (r, end) {
        (Ok(n), ImageEnd::Done(m)) => n == m,
        (Err((n, x)), ImageEnd::Empty) => n == 0 && (x is Empty),
        (Err((n, x)), ImageEnd::Failed(m, e)) => n == m && is_end(Err(x), e),
        _ => false,
    }
}

/// Flashes an image of an update, in the parts that it was cut into where it must be split, and
/// counts the downloads that are done.
pub fn flash_entry<T: FastbootTransport>(
    transport: &mut T,
    session: &UpdateSession,
    entry: &ImageEntry,
    data: &[u8],
    parts: &[Vec<u8>],
) -> (r: Result<usize, (usize, FastbootError)>)
    ensures
        final(transport).faults() >= old(transport).faults(),
        (r matches Err((_, FastbootError::Io(_)))) <==> final(transport).faults() > old(transport).faults(),
        final(transport).faults() == old(transport).faults() ==> ({
            let (log, end) = image_flow(
                old(transport).log(),
                old(transport).packets(),
                PackedImage { data: data@, parts: payload_views(parts@) },
                session.limit,
                target_of(*session, *entry),
            );
            &&& final(transport).log() == log
            &&& end matches Some((e, rest))
            &&& final(transport).packets() == rest
            &&& is_image_end(r, e)
        }),
        match plan_of(data@, session.limit) {
            ImagePlan::Empty => r is Err && *final(transport) == *old(transport),
            ImagePlan::TooLarge | ImagePlan::Whole => r matches Err((n, _)) ==> n == 0,
            ImagePlan::Split { .. } => r matches Err((n, _)) ==> parts_done(
                n as nat,
                old(transport).log(),
                old(transport).packets(),
                payload_views(parts@),
                target_of(*session, *entry),
            ),
        },
{
    let slot = match &session.slot {
        Some(s) => Some(s.as_str()),
        None => None,
    };
    let partition = partition_with_slot(entry.partition, slot);
    match plan_image(data, session.limit) {
        ImagePlan::Split { .. } => flash_split(transport, parts, partition.as_str()),
        _ => match flash_image(transport, data, session.limit, partition.as_str()) {
            Ok(_) => Ok(1),
            Err(e) => Err((0, e)),
        },
    }
}

/// Why an update does not go on.
#[derive(Debug)]
pub enum UpdateStop {
    /// An image that must be there is missing.
    Missing(ImageEntry),
    /// An image could not be flashed, after so many downloads that are done.
    Failed(ImageEntry, usize, FastbootError),
}

/// How an update ends.
pub enum UpdateEnd {
    /// Every step is done.
    Done,
    /// An image that must be there is missing.
    Missing(ImageModel),
    /// An image could not be flashed.
    Failed(ImageModel, ImageEnd),
}

/// What a step of an update comes to.
pub open spec fn step_flow(
    log: Seq<FastbootEvent>,
    packets: Seq<ResponseModel>,
    step: StepModel,
    image: PackedImage,
    limit: Option<usize>,
    slot: Option<Seq<char>>,
) -> (Seq<FastbootEvent>, Option<(UpdateEnd, Seq<ResponseModel>)>) {
    match step {
        StepModel::Skip(_) => (log, Some((UpdateEnd::Done, packets))),
        StepModel::Missing(e) => (log, Some((UpdateEnd::Missing(e), packets))),
        StepModel::Flash(e) => {
            let (sent, end) = image_flow(log, packets, image, limit, slotted(e.partition, slot));
            (
                sent,
                match end {
                    None => None,
                    Some((ImageEnd::Done(_), rest)) => Some((UpdateEnd::Done, rest)),
                    Some((x, rest)) => Some((UpdateEnd::Failed(e, x), rest)),
                },
            )
        },
    }
}

/// An outcome of a step is this end.
pub open spec fn is_step_end(r: Result<usize, UpdateStop>, end: UpdateEnd) -> bool {
    match (r, end) {
        (Ok(_), UpdateEnd::Done) => true,
        (Err(UpdateStop::Missing(e)), UpdateEnd::Missing(m)) => e@ == m,
        (Err(UpdateStop::Failed(e, n, x)), UpdateEnd::Failed(m, end)) => e@ == m && is_image_end(
            Err((n, x)),
            end,
        ),
        _ => false,
    }
}

/// Takes a step of an update, with the bytes of its image and the parts that it was cut into. Counts
/// the downloads, or tells why the update does not go on.
pub fn take_step<T: FastbootTransport>(
    transport: &mut T,
    session: &UpdateSession,
    step: &UpdateStep,
    data: &[u8],
    parts: &[Vec<u8>],
) -> (r: Result<usize, UpdateStop>)
    ensures
        final(transport).faults() >= old(transport).faults(),
        (r matches Err(UpdateStop::Failed(_, _, FastbootError::Io(_)))) <==> final(transport).faults() > old(transport).faults(),
        !(step is Flash) ==> *final(transport) == *old(transport),
        final(transport).faults() == old(transport).faults() ==> ({
            let (log, end) = step_flow(
                old(transport).log(),
                old(transport).packets(),
                step@,
                PackedImage { data: data@, parts: payload_views(parts@) },
                session.limit,
                opt_view(session.slot),
            );
            &&& final(transport).log() == log
            &&& end matches Some((e, rest))
            &&& final(transport).packets() == rest
            &&& is_step_end(r, e)
        }),
        match r {
            Ok(n) => step matches UpdateStep::Skip(_) ==> n == 0,
            Err(UpdateStop::Missing(e)) => *step == UpdateStep::Missing(e),
            Err(UpdateStop::Failed(e, _, _)) => *step == UpdateStep::Flash(e),
        },
{
    match *step {
        UpdateStep::Skip(_) => Ok(0),
        UpdateStep::Missing(e) => Err(UpdateStop::Missing(e)),
        UpdateStep::Flash(e) => match flash_entry(transport, session, &e, data, parts) {
            Ok(n) => Ok(n),
            Err((n, x)) => Err(UpdateStop::Failed(e, n, x)),
        },
    }
}

/// What taking the steps of an update one after another comes to, with the images of a package by
/// the names of their files: it ends with the first step that does not succeed.
pub open spec fn update_flow(
    log: Seq<FastbootEvent>,
    packets: Seq<ResponseModel>,
    steps: Seq<StepModel>,
    images: Map<Seq<char>, PackedImage>,
    limit: Option<usize>,
    slot: Option<Seq<char>>,
) -> (Seq<FastbootEvent>, Option<(UpdateEnd, Seq<ResponseModel>)>)
    decreases steps.len(),
{
    if steps.len() == 0 {
        (log, Some((UpdateEnd::Done, packets)))
    } else {
        let (sent, end) = step_flow(
            log,
            packets,
            steps[0],
            image_of(steps[0], images),
            limit,
            slot,
        );
        match end {
            Some((UpdateEnd::Done, rest)) => update_flow(
                sent,
                rest,
                steps.skip(1),
                images,
                limit,
                slot,
            ),
            _ => (sent, end),
        }
    }
}

/// The image of a step.
pub open spec fn image_of(step: StepModel, images: Map<Seq<char>, PackedImage>) -> PackedImage {
    match step {
        StepModel::Flash(e) => images[e.file],
        StepModel::Skip(e) => images[e.file],
        StepModel::Missing(e) => images[e.file],
    }
}

/// The commands among what is sent that have a partition written.
pub open spec fn flash_commands(log: Seq<FastbootEvent>) -> Seq<Seq<char>>
    decreases log.len(),
{
    if log.len() == 0 {
        Seq::empty()
    } else {
        let before = flash_commands(log.drop_last());
        match log.last() {
            FastbootEvent::Command(c) => if is_prefix("flash:"@, c) {
                before.push(c)
            } else {
                before
            },
            FastbootEvent::Data(_) => before,
        }
    }
}

/// The command that has a partition written, so many times.
pub open spec fn flashes(partition: Seq<char>, n: nat) -> Seq<Seq<char>> {
    Seq::new(n, |i: int| "flash:"@ + partition)
}

/// The commands that have an image written: one, or one for each of its parts.
pub open spec fn image_flashes(
    image: PackedImage,
    limit: Option<usize>,
    partition: Seq<char>,
) -> Seq<Seq<char>> {
    match plan_of(image.data, limit) {
        ImagePlan::Empty | ImagePlan::TooLarge => Seq::empty(),
        ImagePlan::Whole => flashes(partition, 1),
        ImagePlan::Split { .. } => flashes(partition, image.parts.len()),
    }
}

/// The commands that have the images of some steps written.
pub open spec fn step_flashes(
    steps: Seq<StepModel>,
    images: Map<Seq<char>, PackedImage>,
    limit: Option<usize>,
    slot: Option<Seq<char>>,
) -> Seq<Seq<char>>
    decreases steps.len(),
{
    if steps.len() == 0 {
        Seq::empty()
    } else {
        (match steps[0] {
            StepModel::Flash(e) => image_flashes(
                images[e.file],
                limit,
                slotted(e.partition, slot),
            ),
            _ => Seq::empty(),
        }) + step_flashes(steps.skip(1), images, limit, slot)
    }
}

proof fn lemma_no_flash(log: Seq<FastbootEvent>, c: Seq<char>)
    requires
        c.len() > 0,
        c[0] != 'f',
    ensures
        flash_commands(log.push(FastbootEvent::Command(c))) == flash_commands(log),
{
    reveal_strlit("flash:");
    let all = log.push(FastbootEvent::Command(c));
    assert(all.drop_last() =~= log);
    if is_prefix("flash:"@, c) {
        assert(c.subrange(0, 6)[0] == "flash:"@[0]);
    }
}

proof fn lemma_flash_told(log: Seq<FastbootEvent>, partition: Seq<char>)
    ensures
        flash_commands(log.push(FastbootEvent::Command("flash:"@ + partition))) == flash_commands(
            log,
        ) + flashes(partition, 1),
{
    reveal_strlit("flash:");
    let c = "flash:"@ + partition;
    let all = log.push(FastbootEvent::Command(c));
    assert(all.drop_last() =~= log);
    assert(c.subrange(0, 6) =~= "flash:"@);
    assert(flash_commands(all) =~= flash_commands(log) + flashes(partition, 1));
}

proof fn lemma_data_is_no_flash(log: Seq<FastbootEvent>, c: Seq<Seq<u8>>)
    ensures
        flash_commands(log + data_events(c)) == flash_commands(log),
    decreases c.len(),
{
    if c.len() == 0 {
        assert(log + data_events(c) =~= log);
    } else {
        lemma_data_is_no_flash(log, c.drop_last());
        let all = log + data_events(c);
        assert(all.drop_last() =~= log + data_events(c.drop_last()));
        assert(all.last() == FastbootEvent::Data(c.last()));
    }
}

proof fn lemma_download_is_no_flash(
    log: Seq<FastbootEvent>,
    packets: Seq<ResponseModel>,
    payload: Seq<u8>,
    chunk: nat,
)
    ensures
        flash_commands(download_flow(log, packets, payload, chunk).0) == flash_commands(log),
{
    reveal_strlit("download:");
    let c = download_command(payload.len() as u32);
    assert(c[0] == "download:"@[0]);
    lemma_no_flash(log, c);
    lemma_data_is_no_flash(log.push(FastbootEvent::Command(c)), chunked(payload, chunk));
}

/// A payload that is flashed has its partition written once, and one that is not at most once.
proof fn lemma_flash_flow(
    log: Seq<FastbootEvent>,
    packets: Seq<ResponseModel>,
    payload: Seq<u8>,
    chunk: nat,
    partition: Seq<char>,
) -> (j: nat)
    ensures
        ({
            let (sent, end) = flash_flow(log, packets, payload, chunk, partition);
            &&& j <= 1
            &&& payload.len() > u32::MAX ==> j == 0
            &&& flash_commands(sent) == flash_commands(log) + flashes(partition, j)
            &&& end matches Some((FastbootEnd::Done(_), _)) ==> j == 1
        }),
{
    assert(flash_commands(log) + flashes(partition, 0) =~= flash_commands(log));
    if payload.len() > u32::MAX {
        0
    } else {
        lemma_download_is_no_flash(log, packets, payload, chunk);
        let (sent, end) = download_flow(log, packets, payload, chunk);
        match end {
            Some((FastbootEnd::Done(_), _)) => {
                lemma_flash_told(sent, partition);
                1
            },
            _ => 0,
        }
    }
}

proof fn lemma_split_flashes(
    log: Seq<FastbootEvent>,
    packets: Seq<ResponseModel>,
    parts: Seq<Seq<u8>>,
    partition: Seq<char>,
    done: nat,
) -> (j: nat)
    ensures
        ({
            let (sent, end) = split_flow(log, packets, parts, partition, done);
            &&& j <= parts.len()
            &&& flash_commands(sent) == flash_commands(log) + flashes(partition, j)
            &&& end matches Some((Ok(_), _)) ==> j == parts.len()
        }),
    decreases parts.len(),
{
    if parts.len() == 0 {
        assert(flash_commands(log) + flashes(partition, 0) =~= flash_commands(log));
        0
    } else {
        let first = lemma_flash_flow(log, packets, parts[0], usize::MAX as nat, partition);
        let (sent, end) = flash_flow(log, packets, parts[0], usize::MAX as nat, partition);
        match end {
            Some((FastbootEnd::Done(_), rest)) => {
                let more = lemma_split_flashes(sent, rest, parts.skip(1), partition, done + 1);
                assert(flash_commands(log) + flashes(partition, 1) + flashes(partition, more)
                    =~= flash_commands(log) + flashes(partition, 1 + more));
                1 + more
            },
            _ => first,
        }
    }
}

proof fn lemma_image_flashes(
    log: Seq<FastbootEvent>,
    packets: Seq<ResponseModel>,
    image: PackedImage,
    limit: Option<usize>,
    partition: Seq<char>,
) -> (j: int)
    ensures
        ({
            let (sent, end) = image_flow(log, packets, image, limit, partition);
            let all = image_flashes(image, limit, partition);
            &&& 0 <= j <= all.len()
            &&& flash_commands(sent) == flash_commands(log) + all.take(j)
            &&& end matches Some((ImageEnd::Done(_), _)) ==> j == all.len()
        }),
{
    let all = image_flashes(image, limit, partition);
    match plan_of(image.data, limit) {
        ImagePlan::Empty => {
            assert(flash_commands(log) + all.take(0) =~= flash_commands(log));
            0
        },
        ImagePlan::TooLarge | ImagePlan::Whole => {
            let j = lemma_flash_flow(
                log,
                packets,
                image.data,
                piece_size(limit_view(limit)),
                partition,
            );
            assert(all.take(j as int) =~= flashes(partition, j));
            j as int
        },
        ImagePlan::Split { .. } => {
            let j = lemma_split_flashes(log, packets, image.parts, partition, 0);
            assert(all.take(j as int) =~= flashes(partition, j));
            j as int
        },
    }
}

/// An update ended at its step `k`, or went through all of them where `k` is their number: the
/// images of the steps before have all their commands sent, and that of the step itself, if it has
/// one, at most its own.
pub open spec fn ended_at(
    k: int,
    steps: Seq<StepModel>,
    images: Map<Seq<char>, PackedImage>,
    limit: Option<usize>,
    slot: Option<Seq<char>>,
    log: Seq<FastbootEvent>,
    sent: Seq<FastbootEvent>,
    end: Option<(UpdateEnd, Seq<ResponseModel>)>,
) -> bool {
    let done = flash_commands(log) + step_flashes(steps.take(k), images, limit, slot);
    &&& 0 <= k <= steps.len()
    &&& forall|i: int| 0 <= i < k ==> !(#[trigger] steps[i] is Missing)
    &&& if k == steps.len() {
        flash_commands(sent) == done && (end matches Some((UpdateEnd::Done, _)))
    } else {
        match steps[k] {
            StepModel::Skip(_) => false,
            StepModel::Missing(e) => flash_commands(sent) == done && (end matches Some(
                (UpdateEnd::Missing(m), _),
            ) && m == e),
            StepModel::Flash(e) => {
                let all = image_flashes(images[e.file], limit, slotted(e.partition, slot));
                &&& exists|j: int|
                    0 <= j <= all.len() && flash_commands(sent) == done + #[trigger] all.take(j)
                &&& match end {
                    None => true,
                    Some((UpdateEnd::Failed(m, _), _)) => m == e,
                    _ => false,
                }
            },
        }
    }
}

proof fn lemma_update_ends(
    log: Seq<FastbootEvent>,
    packets: Seq<ResponseModel>,
    steps: Seq<StepModel>,
    images: Map<Seq<char>, PackedImage>,
    limit: Option<usize>,
    slot: Option<Seq<char>>,
) -> (k: int)
    ensures
        ({
            let (sent, end) = update_flow(log, packets, steps, images, limit, slot);
            ended_at(k, steps, images, limit, slot, log, sent, end)
        }),
    decreases steps.len(),
{
    let (all_sent, last) = update_flow(log, packets, steps, images, limit, slot);
    let before = flash_commands(log);
    assert(steps.take(0) =~= Seq::<StepModel>::empty());
    assert(before + step_flashes(steps.take(0), images, limit, slot) =~= before);
    if steps.len() == 0 {
        0
    } else {
        let (sent, end) = step_flow(
            log,
            packets,
            steps[0],
            image_of(steps[0], images),
            limit,
            slot,
        );
        let own = match steps[0] {
            StepModel::Flash(e) => image_flashes(
                images[e.file],
                limit,
                slotted(e.partition, slot),
            ),
            _ => Seq::<Seq<char>>::empty(),
        };
        if let StepModel::Flash(e) = steps[0] {
            let j = lemma_image_flashes(
                log,
                packets,
                images[e.file],
                limit,
                slotted(e.partition, slot),
            );
            assert(own.take(own.len() as int) =~= own);
            assert(flash_commands(sent) == before + own.take(j));
        } else {
            assert(before + own =~= before);
        }
        match end {
            Some((UpdateEnd::Done, rest)) => {
                let left = steps.skip(1);
                let k = lemma_update_ends(sent, rest, left, images, limit, slot);
                assert(flash_commands(sent) == before + own);
                assert(steps.take(k + 1).skip(1) =~= left.take(k));
                assert(steps.take(k + 1)[0] == steps[0]);
                let later = step_flashes(left.take(k), images, limit, slot);
                assert(before + own + later =~= before + (own + later));
                assert(step_flashes(steps.take(k + 1), images, limit, slot) == own + later);
                assert forall|i: int| 0 <= i < k + 1 implies !(#[trigger] steps[i] is Missing) by {
                    if i > 0 {
                        assert(left[i - 1] == steps[i]);
                    }
                }
                if k < left.len() {
                    assert(left[k] == steps[k + 1]);
                }
                k + 1
            },
            _ => 0,
        }
    }
}

/// An update flashes the images of the table that the package holds, in the order of the table,
/// each to its own partition and no other. With the first that is missing or fails it ends: of those
/// behind it nothing is flashed.
pub proof fn update_flashes_the_table(
    log: Seq<FastbootEvent>,
    packets: Seq<ResponseModel>,
    names: Seq<Seq<char>>,
    images: Map<Seq<char>, PackedImage>,
    limit: Option<usize>,
    slot: Option<Seq<char>>,
)
    ensures
        ({
            let steps = steps_from(image_table(), names, 0);
            let (sent, end) = update_flow(log, packets, steps, images, limit, slot);
            exists|k: int| #[trigger]
                ended_at(k, steps, images, limit, slot, log, sent, end)
        }),
{
    let steps = steps_from(image_table(), names, 0);
    let k = lemma_update_ends(log, packets, steps, images, limit, slot);
}

/// With a slot, an image goes to the partition of its name, an underscore and the slot. Only a name
/// that ends in an underscore is complete as it is. Without a slot, the name is the partition.
pub proof fn slot_is_appended(partition: Seq<char>, slot: Seq<char>)
    ensures
        partition.len() == 0 || partition.last() != '_' ==> slotted(partition, Some(slot))
            == partition + seq!['_'] + slot,
        partition.len() > 0 && partition.last() == '_' ==> slotted(partition, Some(slot))
            == partition,
        slotted(partition, None) == partition,
{
    reveal_strlit("_");
    assert("_"@ =~= seq!['_']);
    if partition.len() > 0 {
        let end = partition.subrange(partition.len() - 1, partition.len() as int);
        assert(end[0] == partition.last());
        if partition.last() == '_' {
            assert(end =~= "_"@);
        } else {
            assert("_"@[0] == '_');
        }
    }
}

/// The partitions of the table by their names, in order. The file of each is its name and `.img`,
/// but for that of `dts`, and only the images of `boot` and `system` must be there.
pub proof fn table_has_these_partitions()
    ensures
        ({
            let t = image_table();
            let names = seq![
                "boot"@,
                "bootloader"@,
                "init_boot"@,
                "dtbo"@,
                "dts"@,
                "odm"@,
                "odm_dlkm"@,
                "product"@,
                "pvmfw"@,
                "radio"@,
                "recovery"@,
                "super"@,
                "system"@,
                "system_dlkm"@,
                "system_ext"@,
                "userdata"@,
                "vbmeta"@,
                "vbmeta_system"@,
                "vbmeta_vendor"@,
                "vendor"@,
                "vendor_boot"@,
                "vendor_dlkm"@,
                "vendor_kernel_boot"@,
                "cache"@,
            ];
            &&& t.len() == names.len()
            &&& forall|i: int| 0 <= i < t.len() ==> (#[trigger] t[i]).partition == names[i]
            &&& forall|i: int|
                0 <= i < t.len() ==> (#[trigger] t[i]).file == if names[i] == "dts"@ {
                    "dt.img"@
                } else {
                    names[i] + ".img"@
                }
            &&& forall|i: int|
                0 <= i < t.len() ==> (!(#[trigger] t[i]).optional <==> names[i] == "boot"@
                    || names[i] == "system"@)
        }),
{
    reveal_strlit(".img");
    reveal_strlit("dt.img");
    lemma_names_differ();
    lemma_file_names();
    let t = image_table();
    assert(t.len() == 24);
}

proof fn lemma_names_differ()
    ensures
        "boot"@ != "dts"@,
        "bootloader"@ != "dts"@,
        "init_boot"@ != "dts"@,
        "dtbo"@ != "dts"@,
        "odm"@ != "dts"@,
        "odm_dlkm"@ != "dts"@,
        "product"@ != "dts"@,
        "pvmfw"@ != "dts"@,
        "radio"@ != "dts"@,
        "recovery"@ != "dts"@,
        "super"@ != "dts"@,
        "system"@ != "dts"@,
        "system_dlkm"@ != "dts"@,
        "system_ext"@ != "dts"@,
        "userdata"@ != "dts"@,
        "vbmeta"@ != "dts"@,
        "vbmeta_system"@ != "dts"@,
        "vbmeta_vendor"@ != "dts"@,
        "vendor"@ != "dts"@,
        "vendor_boot"@ != "dts"@,
        "vendor_dlkm"@ != "dts"@,
        "vendor_kernel_boot"@ != "dts"@,
        "cache"@ != "dts"@,
        forall|i: int|
            0 <= i < image_table().len() && i != 0 && i != 12 ==> (#[trigger] image_table()[i]).partition
                != "boot"@ && image_table()[i].partition != "system"@,
{
    reveal_strlit("boot");
    reveal_strlit("bootloader");
    reveal_strlit("init_boot");
    reveal_strlit("dtbo");
    reveal_strlit("dts");
    reveal_strlit("odm");
    reveal_strlit("odm_dlkm");
    reveal_strlit("product");
    reveal_strlit("pvmfw");
    reveal_strlit("radio");
    reveal_strlit("recovery");
    reveal_strlit("super");
    reveal_strlit("system");
    reveal_strlit("system_dlkm");
    reveal_strlit("system_ext");
    reveal_strlit("userdata");
    reveal_strlit("vbmeta");
    reveal_strlit("vbmeta_system");
    reveal_strlit("vbmeta_vendor");
    reveal_strlit("vendor");
    reveal_strlit("vendor_boot");
    reveal_strlit("vendor_dlkm");
    reveal_strlit("vendor_kernel_boot");
    reveal_strlit("cache");
    assert("boot"@.len() == 4 && "dts"@.len() == 3 && "system"@.len() == 6);
    assert("odm"@[0] == 'o' && "dts"@[0] == 'd');
    assert("dtbo"@.len() == 4 && "dtbo"@[0] == 'd' && "boot"@[0] == 'b');
    assert("vbmeta"@.len() == 6 && "vbmeta"@[0] == 'v' && "system"@[0] == 's');
    assert("vendor"@.len() == 6 && "vendor"@[0] == 'v');
}

proof fn lemma_file_names()
    ensures
        "boot"@ + ".img"@ == "boot.img"@,
        "bootloader"@ + ".img"@ == "bootloader.img"@,
        "init_boot"@ + ".img"@ == "init_boot.img"@,
        "dtbo"@ + ".img"@ == "dtbo.img"@,
        "odm"@ + ".img"@ == "odm.img"@,
        "odm_dlkm"@ + ".img"@ == "odm_dlkm.img"@,
        "product"@ + ".img"@ == "product.img"@,
        "pvmfw"@ + ".img"@ == "pvmfw.img"@,
        "radio"@ + ".img"@ == "radio.img"@,
        "recovery"@ + ".img"@ == "recovery.img"@,
        "super"@ + ".img"@ == "super.img"@,
        "system"@ + ".img"@ == "system.img"@,
        "system_dlkm"@ + ".img"@ == "system_dlkm.img"@,
        "system_ext"@ + ".img"@ == "system_ext.img"@,
        "userdata"@ + ".img"@ == "userdata.img"@,
        "vbmeta"@ + ".img"@ == "vbmeta.img"@,
        "vbmeta_system"@ + ".img"@ == "vbmeta_system.img"@,
        "vbmeta_vendor"@ + ".img"@ == "vbmeta_vendor.img"@,
        "vendor"@ + ".img"@ == "vendor.img"@,
        "vendor_boot"@ + ".img"@ == "vendor_boot.img"@,
        "vendor_dlkm"@ + ".img"@ == "vendor_dlkm.img"@,
        "vendor_kernel_boot"@ + ".img"@ == "vendor_kernel_boot.img"@,
        "cache"@ + ".img"@ == "cache.img"@,
{
    reveal_strlit(".img");
    reveal_strlit("boot");
    reveal_strlit("boot.img");
    assert("boot"@ + ".img"@ =~= "boot.img"@);
    reveal_strlit("bootloader");
    reveal_strlit("bootloader.img");
    assert("bootloader"@ + ".img"@ =~= "bootloader.img"@);
    reveal_strlit("init_boot");
    reveal_strlit("init_boot.img");
    assert("init_boot"@ + ".img"@ =~= "init_boot.img"@);
    reveal_strlit("dtbo");
    reveal_strlit("dtbo.img");
    assert("dtbo"@ + ".img"@ =~= "dtbo.img"@);
    reveal_strlit("odm");
    reveal_strlit("odm.img");
    assert("odm"@ + ".img"@ =~= "odm.img"@);
    reveal_strlit("odm_dlkm");
    reveal_strlit("odm_dlkm.img");
    assert("odm_dlkm"@ + ".img"@ =~= "odm_dlkm.img"@);
    reveal_strlit("product");
    reveal_strlit("product.img");
    assert("product"@ + ".img"@ =~= "product.img"@);
    reveal_strlit("pvmfw");
    reveal_strlit("pvmfw.img");
    assert("pvmfw"@ + ".img"@ =~= "pvmfw.img"@);
    reveal_strlit("radio");
    reveal_strlit("radio.img");
    assert("radio"@ + ".img"@ =~= "radio.img"@);
    reveal_strlit("recovery");
    reveal_strlit("recovery.img");
    assert("recovery"@ + ".img"@ =~= "recovery.img"@);
    reveal_strlit("super");
    reveal_strlit("super.img");
    assert("super"@ + ".img"@ =~= "super.img"@);
    reveal_strlit("system");
    reveal_strlit("system.img");
    assert("system"@ + ".img"@ =~= "system.img"@);
    reveal_strlit("system_dlkm");
    reveal_strlit("system_dlkm.img");
    assert("system_dlkm"@ + ".img"@ =~= "system_dlkm.img"@);
    reveal_strlit("system_ext");
    reveal_strlit("system_ext.img");
    assert("system_ext"@ + ".img"@ =~= "system_ext.img"@);
    reveal_strlit("userdata");
    reveal_strlit("userdata.img");
    assert("userdata"@ + ".img"@ =~= "userdata.img"@);
    reveal_strlit("vbmeta");
    reveal_strlit("vbmeta.img");
    assert("vbmeta"@ + ".img"@ =~= "vbmeta.img"@);
    reveal_strlit("vbmeta_system");
    reveal_strlit("vbmeta_system.img");
    assert("vbmeta_system"@ + ".img"@ =~= "vbmeta_system.img"@);
    reveal_strlit("vbmeta_vendor");
    reveal_strlit("vbmeta_vendor.img");
    assert("vbmeta_vendor"@ + ".img"@ =~= "vbmeta_vendor.img"@);
    reveal_strlit("vendor");
    reveal_strlit("vendor.img");
    assert("vendor"@ + ".img"@ =~= "vendor.img"@);
    reveal_strlit("vendor_boot");
    reveal_strlit("vendor_boot.img");
    assert("vendor_boot"@ + ".img"@ =~= "vendor_boot.img"@);
    reveal_strlit("vendor_dlkm");
    reveal_strlit("vendor_dlkm.img");
    assert("vendor_dlkm"@ + ".img"@ =~= "vendor_dlkm.img"@);
    reveal_strlit("vendor_kernel_boot");
    reveal_strlit("vendor_kernel_boot.img");
    assert("vendor_kernel_boot"@ + ".img"@ =~= "vendor_kernel_boot.img"@);
    reveal_strlit("cache");
    reveal_strlit("cache.img");
    assert("cache"@ + ".img"@ =~= "cache.img"@);
}

/// No name in the table ends in an underscore.
proof fn lemma_no_name_is_complete(i: int)
    requires
        0 <= i < image_table().len(),
    ensures
        image_table()[i].partition.len() > 0,
        image_table()[i].partition.last() != '_',
{
    reveal_strlit("boot");
    reveal_strlit("bootloader");
    reveal_strlit("init_boot");
    reveal_strlit("dtbo");
    reveal_strlit("dts");
    reveal_strlit("odm");
    reveal_strlit("odm_dlkm");
    reveal_strlit("product");
    reveal_strlit("pvmfw");
    reveal_strlit("radio");
    reveal_strlit("recovery");
    reveal_strlit("super");
    reveal_strlit("system");
    reveal_strlit("system_dlkm");
    reveal_strlit("system_ext");
    reveal_strlit("userdata");
    reveal_strlit("vbmeta");
    reveal_strlit("vbmeta_system");
    reveal_strlit("vbmeta_vendor");
    reveal_strlit("vendor");
    reveal_strlit("vendor_boot");
    reveal_strlit("vendor_dlkm");
    reveal_strlit("vendor_kernel_boot");
    reveal_strlit("cache");
}

/// Whatever image of the table is flashed on a device with slots, every command that writes it names
/// its partition, an underscore and the slot. An image that is flashed in one download is written by
/// exactly one such command.
pub proof fn images_go_to_their_slot(
    i: int,
    slot: Seq<char>,
    log: Seq<FastbootEvent>,
    packets: Seq<ResponseModel>,
    image: PackedImage,
    limit: Option<usize>,
)
    requires
        0 <= i < image_table().len(),
    ensures
        ({
            let e = image_table()[i];
            let command = "flash:"@ + e.partition + seq!['_'] + slot;
            let (sent, end) = step_flow(
                log,
                packets,
                StepModel::Flash(e),
                image,
                limit,
                Some(slot),
            );
            let before = flash_commands(log);
            let after = flash_commands(sent);
            &&& before.len() <= after.len()
            &&& after.take(before.len() as int) == before
            &&& forall|k: int| before.len() <= k < after.len() ==> #[trigger] after[k] == command
            &&& (end matches Some((UpdateEnd::Done, _))) && (limit is None || image.data.len()
                <= limit->0) ==> after == before.push(command)
        }),
{
    let e = image_table()[i];
    let command = "flash:"@ + e.partition + seq!['_'] + slot;
    lemma_no_name_is_complete(i);
    slot_is_appended(e.partition, slot);
    let target = slotted(e.partition, Some(slot));
    assert("flash:"@ + target =~= command);
    let j = lemma_image_flashes(log, packets, image, limit, target);
    let (sent, end) = step_flow(log, packets, StepModel::Flash(e), image, limit, Some(slot));
    let all = image_flashes(image, limit, target);
    let before = flash_commands(log);
    let after = flash_commands(sent);
    assert(after == before + all.take(j));
    assert(after.take(before.len() as int) =~= before);
    assert forall|k: int| before.len() <= k < after.len() implies #[trigger] after[k] == command by {
        assert(after[k] == all[k - before.len()]);
    }
    if (end matches Some((UpdateEnd::Done, _))) && (limit is None || image.data.len() <= limit->0) {
        if plan_of(image.data, limit) is TooLarge {
            let (told, last) = flash_flow(
                log,
                packets,
                image.data,
                piece_size(limit_view(limit)),
                target,
            );
            assert(last == Some((FastbootEnd::TooLarge(image.data.len()), packets)));
        }
        assert(all.take(j) =~= seq![command]);
        assert(after =~= before.push(command));
    }
}

/// An image is written in one download unless the device names a limit that it exceeds; then it
/// is split, as what it is: sparse where it begins with the mark of a sparse image.
pub proof fn plans_keep_the_limit(data: Seq<u8>, n: usize)
    ensures
        data.len() == 0 ==> plan_of(data, Some(n)) == ImagePlan::Empty,
        data.len() > 0xffff_ffff ==> plan_of(data, Some(n)) == ImagePlan::TooLarge,
        0 < data.len() <= 0xffff_ffff ==> plan_of(data, Some(n)) == if n == 0 || data.len() <= n {
            ImagePlan::Whole
        } else {
            ImagePlan::Split {
                limit: n,
                sparse: data.len() >= 28 && word_at(data, 0) == 0xed26_ff3a,
            }
        },
        0 < data.len() <= 0xffff_ffff ==> plan_of(data, None) == ImagePlan::Whole,
{
    if data.len() >= 28 {
        numbers_are_little_endian(data, 0);
    }
}

/// The slot of a device is what it answers without the white space around it; an empty answer, or
/// none, is no slot.
pub proof fn slots_are_told(a: Seq<char>, slot: Seq<char>, b: Seq<char>, other: ResponseModel)
    requires
        all_white(a),
        all_white(b),
        is_tight(slot),
        !(other is Okay),
    ensures
        slot_in(ResponseModel::Okay(a + slot + b)) == if slot.len() > 0 {
            Some(slot)
        } else {
            None
        },
        slot_in(other) is None,
        value_in(ResponseModel::Okay(slot)) == Some(slot),
        value_in(other) is None,
{
    trimming_keeps_the_middle(a, slot, b);
}

proof fn lemma_bytes_sent_concat(a: Seq<FastbootEvent>, b: Seq<FastbootEvent>)
    ensures
        bytes_sent(a + b) == bytes_sent(a) + bytes_sent(b),
    decreases a.len(),
{
    if a.len() == 0 {
        assert(a + b =~= b);
        assert(bytes_sent(a) + bytes_sent(b) =~= bytes_sent(b));
    } else {
        assert((a + b).skip(1) =~= a.skip(1) + b);
        assert((a + b)[0] == a[0]);
        lemma_bytes_sent_concat(a.skip(1), b);
        assert(bytes_sent(a + b) =~= bytes_sent(a) + bytes_sent(b));
    }
}

proof fn lemma_commands_send_nothing(c: Seq<char>)
    ensures
        bytes_sent(seq![FastbootEvent::Command(c)]) == Seq::<u8>::empty(),
{
    let one = seq![FastbootEvent::Command(c)];
    assert(one.skip(1) =~= Seq::<FastbootEvent>::empty());
    assert(bytes_sent(one.skip(1)) =~= Seq::<u8>::empty());
    assert(bytes_sent(one) =~= Seq::<u8>::empty());
}

/// A device that takes a payload and then writes it: it got the size, the payload and then the
/// command to write it to the partition, and nothing else.
pub proof fn image_is_delivered(
    log: Seq<FastbootEvent>,
    before: Seq<ResponseModel>,
    between: Seq<ResponseModel>,
    taken: Seq<char>,
    behind: Seq<ResponseModel>,
    written: Seq<char>,
    rest: Seq<ResponseModel>,
    payload: Seq<u8>,
    chunk: nat,
    partition: Seq<char>,
) -> (data: Seq<FastbootEvent>)
    requires
        are_remarks(before),
        are_remarks(between),
        are_remarks(behind),
        payload.len() <= u32::MAX,
        chunk > 0,
    ensures
        bytes_sent(data) == payload,
        blocks_fit(data, chunk),
        forall|i: int| 0 <= i < data.len() ==> (#[trigger] data[i]) is Data,
        flash_flow(
            log,
            before + seq![ResponseModel::Data(payload.len() as u32)] + (between + seq![
                ResponseModel::Okay(taken),
            ] + (behind + seq![ResponseModel::Okay(written)] + rest)),
            payload,
            chunk,
            partition,
        ) == (
            (log.push(FastbootEvent::Command(download_command(payload.len() as u32))) + data).push(
                FastbootEvent::Command("flash:"@ + partition),
            ),
            Some((FastbootEnd::Done(ResponseModel::Okay(written)), rest)),
        ),
{
    let last = behind + seq![ResponseModel::Okay(written)] + rest;
    let data = payload_is_delivered(
        log,
        before,
        between,
        ResponseModel::Okay(taken),
        last,
        payload,
        chunk,
    );
    status_stands_behind_remarks(behind, ResponseModel::Okay(written), rest);
    data
}

/// What a device replies that takes some parts and writes each.
pub open spec fn replies_for(parts: Seq<Seq<u8>>, taken: Seq<char>, written: Seq<char>) -> Seq<
    ResponseModel,
>
    decreases parts.len(),
{
    if parts.len() == 0 {
        Seq::empty()
    } else {
        seq![
            ResponseModel::Data(parts[0].len() as u32),
            ResponseModel::Okay(taken),
            ResponseModel::Okay(written),
        ] + replies_for(parts.skip(1), taken, written)
    }
}

/// A split image is written part by part: a device that takes all of them has got all their
/// bytes, in their order, and each part was written before the next one was sent.
pub proof fn split_image_is_delivered(
    log: Seq<FastbootEvent>,
    parts: Seq<Seq<u8>>,
    taken: Seq<char>,
    written: Seq<char>,
    rest: Seq<ResponseModel>,
    partition: Seq<char>,
    done: nat,
)
    requires
        forall|i: int| 0 <= i < parts.len() ==> (#[trigger] parts[i]).len() <= u32::MAX,
    ensures
        ({
            let (sent, end) = split_flow(
                log,
                replies_for(parts, taken, written) + rest,
                parts,
                partition,
                done,
            );
            &&& end == Some((Ok::<nat, (nat, FastbootEnd)>(done + parts.len()), rest))
            &&& bytes_sent(sent) == bytes_sent(log) + joined_chunks(parts)
            &&& parts.len() > 0 ==> sent.last() == FastbootEvent::Command("flash:"@ + partition)
        }),
    decreases parts.len(),
{
    let packets = replies_for(parts, taken, written) + rest;
    if parts.len() == 0 {
        assert(packets =~= rest);
        assert(bytes_sent(log) + joined_chunks(parts) =~= bytes_sent(log));
    } else {
        let p = parts[0];
        let left = parts.skip(1);
        let none = Seq::<ResponseModel>::empty();
        let later = replies_for(left, taken, written) + rest;
        assert(parts[0].len() <= u32::MAX);
        assert forall|i: int| 0 <= i < left.len() implies (#[trigger] left[i]).len() <= u32::MAX by {
            assert(left[i] == parts[i + 1]);
        }
        let data = image_is_delivered(
            log,
            none,
            none,
            taken,
            none,
            written,
            later,
            p,
            usize::MAX as nat,
            partition,
        );
        assert(packets =~= none + seq![ResponseModel::Data(p.len() as u32)] + (none + seq![
            ResponseModel::Okay(taken),
        ] + (none + seq![ResponseModel::Okay(written)] + later)));
        let announce = FastbootEvent::Command(download_command(p.len() as u32));
        let write = FastbootEvent::Command("flash:"@ + partition);
        let sent = (log.push(announce) + data).push(write);
        assert(sent =~= log + (seq![announce] + (data + seq![write])));
        lemma_bytes_sent_concat(log, seq![announce] + (data + seq![write]));
        lemma_bytes_sent_concat(seq![announce], data + seq![write]);
        lemma_bytes_sent_concat(data, seq![write]);
        lemma_commands_send_nothing(download_command(p.len() as u32));
        lemma_commands_send_nothing("flash:"@ + partition);
        assert(bytes_sent(sent) =~= bytes_sent(log) + p);
        split_image_is_delivered(sent, left, taken, written, rest, partition, done + 1);
        assert(bytes_sent(log) + p + joined_chunks(left) =~= bytes_sent(log) + joined_chunks(parts));
    }
}

/// The questions for some names.
pub open spec fn questions(names: Seq<Seq<char>>) -> Seq<FastbootEvent> {
    Seq::new(names.len(), |i: int| FastbootEvent::Command("getvar:"@ + names[i]))
}

/// A device that answers every question: the questions are asked in their order, and each answer
/// is that of its question.
pub proof fn questions_are_asked_in_turn(
    log: Seq<FastbootEvent>,
    names: Seq<Seq<char>>,
    answers: Seq<ResponseModel>,
    rest: Seq<ResponseModel>,
)
    requires
        answers.len() == names.len(),
        forall|i: int|
            0 <= i < answers.len() ==> !((#[trigger] answers[i]) is Info || answers[i] is Text),
    ensures
        asked_all(log, answers + rest, names) == (answers, log + questions(names), rest),
    decreases names.len(),
{
    if names.len() == 0 {
        assert(answers =~= Seq::<ResponseModel>::empty());
        assert(answers + rest =~= rest);
        assert(log + questions(names) =~= log);
    } else {
        let before = names.drop_last();
        let first = answers.drop_last();
        let x = answers.last();
        assert(!(answers[answers.len() - 1] is Info || answers[answers.len() - 1] is Text));
        assert forall|i: int| 0 <= i < first.len() implies !((#[trigger] first[i]) is Info
            || first[i] is Text) by {
            assert(first[i] == answers[i]);
        }
        questions_are_asked_in_turn(log, before, first, seq![x] + rest);
        assert(answers + rest =~= first + (seq![x] + rest));
        let none = Seq::<ResponseModel>::empty();
        status_stands_behind_remarks(none, x, rest);
        assert(none + seq![x] + rest =~= seq![x] + rest);
        assert(first.push(x) =~= answers);
        assert((log + questions(before)).push(
            FastbootEvent::Command("getvar:"@ + names.last()),
        ) =~= log + questions(names));
    }
}

/// Before an update these are asked for and shown, and the requirements of the package are
/// checked next; only then the limit and the slot are asked for.
pub proof fn update_begins_with_questions(
    log: Seq<FastbootEvent>,
    a: ResponseModel,
    b: ResponseModel,
    c: ResponseModel,
    rest: Seq<ResponseModel>,
    warnings: Seq<WarningModel>,
    d: ResponseModel,
    e: ResponseModel,
    left: Seq<ResponseModel>,
)
    requires
        !(a is Info || a is Text),
        !(b is Info || b is Text),
        !(c is Info || c is Text),
        !(d is Info || d is Text),
        !(e is Info || e is Text),
        rest == seq![d, e] + left,
    ensures
        ({
            let (shown, checked, (values, after, packets)) = ready(
                log,
                seq![a, b, c] + rest,
                Seq::empty(),
                warnings,
            );
            &&& shown == seq![a, b, c]
            &&& checked.failure is None
            &&& checked.warnings == warnings
            &&& values == seq![d, e]
            &&& packets == left
            &&& after == log + seq![
                FastbootEvent::Command("getvar:"@ + "version-bootloader"@),
                FastbootEvent::Command("getvar:"@ + "version-baseband"@),
                FastbootEvent::Command("getvar:"@ + "serialno"@),
                FastbootEvent::Command("getvar:"@ + "max-download-size"@),
                FastbootEvent::Command("getvar:"@ + "current-slot"@),
            ]
        }),
{
    let first = shown_names();
    let last = seq!["max-download-size"@, "current-slot"@];
    questions_are_asked_in_turn(log, first, seq![a, b, c], rest);
    let asked = log + questions(first);
    questions_are_asked_in_turn(asked, last, seq![d, e], left);
    assert(asked + questions(last) =~= log + seq![
        FastbootEvent::Command("getvar:"@ + "version-bootloader"@),
        FastbootEvent::Command("getvar:"@ + "version-baseband"@),
        FastbootEvent::Command("getvar:"@ + "serialno"@),
        FastbootEvent::Command("getvar:"@ + "max-download-size"@),
        FastbootEvent::Command("getvar:"@ + "current-slot"@),
    ]);
}

/// A boot image begins with these eight letters.
pub proof fn boot_images_have_their_mark()
    ensures
        boot_magic() == seq![0x41u8, 0x4e, 0x44, 0x52, 0x4f, 0x49, 0x44, 0x21],
{
    assert(boot_magic() =~= seq![0x41u8, 0x4e, 0x44, 0x52, 0x4f, 0x49, 0x44, 0x21]);
}

} // verus!
