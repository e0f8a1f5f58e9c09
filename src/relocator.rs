use vstd::prelude::*;

use crate::db::WorkDetail;
use crate::importer::names;
use crate::scanner::{ascii_lower, lower_chars, lowered};
use crate::path::{
    component_list, components, hex_char, hex_digit, path_starts_with, resolve_work_path,
    resolved_path, starts_with_parts,
};
use crate::template::{copy_opt, opt_chars, MetadataView, WorkMetadata};
use crate::text::{chars_of, copy_text, dup, join_slash, push_joined, same_chars, string_of, views};

verus! {

/// One planned move: a work, where it is, and where it goes.
pub struct PlanEntry {
    pub work_id: i64,
    pub title: Seq<char>,
    pub old_path: Seq<char>,
    pub new_path: Seq<char>,
}

/// A planned move as it is shown before relocation.
pub struct RelocationPreview {
    pub work_id: i64,
    pub title: String,
    pub old_path: String,
    pub new_path: String,
}

impl View for RelocationPreview {
    type V = PlanEntry;

    open spec fn view(&self) -> PlanEntry {
        PlanEntry {
            work_id: self.work_id,
            title: self.title@,
            old_path: self.old_path@,
            new_path: self.new_path@,
        }
    }
}

pub open spec fn entries(v: Seq<RelocationPreview>) -> Seq<PlanEntry> {
    v.map_values(|p: RelocationPreview| p@)
}

/// The metadata a stored work is rendered with, its type shown as `label`.
pub open spec fn metadata_of(w: WorkDetail, label: Seq<char>) -> MetadataView {
    MetadataView {
        title: w.title@,
        artist: opt_chars(w.artist),
        year: w.year,
        genre: opt_chars(w.genre),
        circle: opt_chars(w.circle),
        origin: opt_chars(w.origin),
        work_type: Some(label),
    }
}

/// The metadata of a stored work, its type shown as `type_label`.
pub fn work_detail_to_metadata(work: &WorkDetail, type_label: &str) -> (r: WorkMetadata)
    ensures
        r@ == metadata_of(*work, type_label@),
{
    let label = chars_of(type_label);
    WorkMetadata {
        title: copy_text(&work.title),
        artist: copy_opt(&work.artist),
        year: work.year,
        genre: copy_opt(&work.genre),
        circle: copy_opt(&work.circle),
        origin: copy_opt(&work.origin),
        work_type: Some(string_of(label.as_slice())),
    }
}

/// `n` in lowercase hexadecimal, padded with zeros to at least `w` digits, as `{:04x}`
/// writes it for `w` 4.
pub open spec fn hex_padded(n: nat, w: nat) -> Seq<char>
    decreases n + w,
{
    if n < 16 && w <= 1 {
        seq![hex_char(n as int)]
    } else {
        hex_padded(
            n / 16,
            if w > 0 {
                (w - 1) as nat
            } else {
                0
            },
        ).push(hex_char((n % 16) as int))
    }
}

/// Variant `n` of a path: `_` and `n` in at least four hexadecimal digits added to it.
pub open spec fn variant(p: Seq<char>, n: int) -> Seq<char> {
    p + seq!['_'] + hex_padded(n as nat, 4)
}

/// Appends `n` in lowercase hexadecimal, padded to at least `w` digits.
fn push_hex_padded(out: &mut Vec<char>, n: u32, w: u32)
    ensures
        final(out)@ == old(out)@ + hex_padded(n as nat, w as nat),
    decreases n + w,
{
    if n < 16 && w <= 1 {
        out.push(hex_digit(n));
    } else {
        let next_w: u32 = if w > 0 {
            w - 1
        } else {
            0
        };
        push_hex_padded(out, n / 16, next_w);
        out.push(hex_digit(n % 16));
        assert(final(out)@ =~= old(out)@ + hex_padded(n as nat, w as nat));
    }
}

/// The paths in small ASCII letters.
pub open spec fn lowered_all(v: Seq<Seq<char>>) -> Seq<Seq<char>> {
    v.map_values(|q: Seq<char>| lowered(q))
}

/// Whether `p` stands on disk, the snapshot `existing` compared without regard to ASCII case.
pub open spec fn on_disk(p: Seq<char>, existing: Seq<Seq<char>>) -> bool {
    lowered_all(existing).contains(lowered(p))
}

/// Whether a path is claimed for a work now at `own`: by an earlier move of the plan, or by
/// a file or directory on disk other than the work's own folder.
pub open spec fn is_taken(p: Seq<char>, used: Seq<Seq<char>>, existing: Seq<Seq<char>>, own: Seq<char>) -> bool {
    used.contains(p) || (on_disk(p, existing) && p != own)
}

/// The first number from `i` on whose variant of `base` is free; 2^32 where the `u32`
/// counter runs out first.
pub open spec fn free_index_from(
    base: Seq<char>,
    used: Seq<Seq<char>>,
    existing: Seq<Seq<char>>, own: Seq<char>,
    i: int,
) -> int
    decreases 0x1_0000_0000 - i,
{
    if i >= 0x1_0000_0000 || !is_taken(variant(base, i), used, existing, own) {
        i
    } else {
        free_index_from(base, used, existing, own, i + 1)
    }
}

/// The first free variant of `base` for a work now at `own`: `_0001`, `_0002`, ... appended.
pub open spec fn unique_variant(
    base: Seq<char>,
    used: Seq<Seq<char>>,
    existing: Seq<Seq<char>>, own: Seq<char>,
) -> Seq<char> {
    variant(base, free_index_from(base, used, existing, own, 1))
}

/// Where a work goes after the moves already planned: its resolved path, or the first
/// free variant where that path is claimed by the plan or, other than as the work's own
/// folder, by the disk.
pub open spec fn chosen_path(
    plan: Seq<PlanEntry>,
    w: WorkDetail,
    root: Seq<char>,
    t: Seq<char>,
    label: Seq<char>,
    existing: Seq<Seq<char>>,
) -> Seq<char> {
    let used = plan.map_values(|e: PlanEntry| e.new_path);
    let base = resolved_path(root, t, metadata_of(w, label));
    if is_taken(base, used, existing, w.path@) {
        unique_variant(base, used, existing, w.path@)
    } else {
        base
    }
}

/// The plan after one more work: an entry only where the work moves.
pub open spec fn plan_step(
    plan: Seq<PlanEntry>,
    w: WorkDetail,
    root: Seq<char>,
    t: Seq<char>,
    label: Seq<char>,
    existing: Seq<Seq<char>>,
) -> Seq<PlanEntry> {
    let new_path = chosen_path(plan, w, root, t, label, existing);
    if new_path != w.path@ {
        plan.push(PlanEntry { work_id: w.id, title: w.title@, old_path: w.path@, new_path })
    } else {
        plan
    }
}

/// The relocation plan for `works`, taken in order.
pub open spec fn relocation_plan(
    works: Seq<WorkDetail>,
    root: Seq<char>,
    t: Seq<char>,
    label: Seq<char>,
    existing: Seq<Seq<char>>,
) -> Seq<PlanEntry>
    decreases works.len(),
{
    if works.len() == 0 {
        seq![]
    } else {
        plan_step(
            relocation_plan(works.drop_last(), root, t, label, existing),
            works.last(),
            root,
            t,
            label,
            existing,
        )
    }
}

proof fn lemma_hex_char_injective(a: int, b: int)
    requires
        0 <= a < 16,
        0 <= b < 16,
        hex_char(a) == hex_char(b),
    ensures
        a == b,
{
}

proof fn lemma_hex_padded_len(n: nat, w: nat)
    ensures
        hex_padded(n, w).len() >= 1,
        (n >= 16 || w > 1) ==> hex_padded(n, w).len() >= 2,
    decreases n + w,
{
    if !(n < 16 && w <= 1) {
        lemma_hex_padded_len(
            n / 16,
            if w > 0 {
                (w - 1) as nat
            } else {
                0
            },
        );
    }
}

proof fn lemma_hex_padded_injective(a: nat, b: nat, w: nat)
    requires
        hex_padded(a, w) == hex_padded(b, w),
    ensures
        a == b,
    decreases a + w,
{
    lemma_hex_padded_len(a, w);
    lemma_hex_padded_len(b, w);
    let short_a = a < 16 && w <= 1;
    let short_b = b < 16 && w <= 1;
    if short_a && short_b {
        assert(hex_padded(a, w)[0] == hex_char(a as int));
        assert(hex_padded(b, w)[0] == hex_char(b as int));
        lemma_hex_char_injective(a as int, b as int);
    } else if !short_a && !short_b {
        let v: nat = if w > 0 {
            (w - 1) as nat
        } else {
            0
        };
        let ha = hex_padded(a, w);
        let hb = hex_padded(b, w);
        assert(ha == hex_padded(a / 16, v).push(hex_char((a % 16) as int)));
        assert(hb == hex_padded(b / 16, v).push(hex_char((b % 16) as int)));
        assert(ha.last() == hex_char((a % 16) as int));
        assert(hb.last() == hex_char((b % 16) as int));
        lemma_hex_char_injective((a % 16) as int, (b % 16) as int);
        assert(ha.drop_last() =~= hex_padded(a / 16, v));
        assert(hb.drop_last() =~= hex_padded(b / 16, v));
        lemma_hex_padded_injective(a / 16, b / 16, v);
        assert(a == 16 * (a / 16) + a % 16);
        assert(b == 16 * (b / 16) + b % 16);
    } else {
        assert(hex_padded(a, w).len() != hex_padded(b, w).len());
    }
}

proof fn lemma_variant_injective(base: Seq<char>, a: int, b: int)
    requires
        a >= 1,
        b >= 1,
        variant(base, a) == variant(base, b),
    ensures
        a == b,
{
    let n = base.len() as int;
    let va = variant(base, a);
    let vb = variant(base, b);
    assert(va.subrange(n + 1, va.len() as int) =~= hex_padded(a as nat, 4));
    assert(vb.subrange(n + 1, vb.len() as int) =~= hex_padded(b as nat, 4));
    lemma_hex_padded_injective(a as nat, b as nat, 4);
}

proof fn lemma_hex_padded_lower(n: nat, w: nat)
    ensures
        lowered(hex_padded(n, w)) == hex_padded(n, w),
    decreases n + w,
{
    if n < 16 && w <= 1 {
        assert(lowered(hex_padded(n, w)) =~= hex_padded(n, w));
    } else {
        let v: nat = if w > 0 {
            (w - 1) as nat
        } else {
            0
        };
        lemma_hex_padded_lower(n / 16, v);
        assert(lowered(hex_padded(n, w)) =~= lowered(hex_padded(n / 16, v)).push(
            ascii_lower(hex_char((n % 16) as int)),
        ));
        assert(lowered(hex_padded(n, w)) =~= hex_padded(n, w));
    }
}

proof fn lemma_lowered_variant_injective(base: Seq<char>, a: int, b: int)
    requires
        a >= 1,
        b >= 1,
        lowered(variant(base, a)) == lowered(variant(base, b)),
    ensures
        a == b,
{
    lemma_hex_padded_lower(a as nat, 4);
    lemma_hex_padded_lower(b as nat, 4);
    let n = base.len() as int;
    let la = lowered(variant(base, a));
    let lb = lowered(variant(base, b));
    assert(la =~= lowered(base) + seq!['_'] + hex_padded(a as nat, 4));
    assert(lb =~= lowered(base) + seq!['_'] + hex_padded(b as nat, 4));
    assert(la.subrange(n + 1, la.len() as int) =~= hex_padded(a as nat, 4));
    assert(lb.subrange(n + 1, lb.len() as int) =~= hex_padded(b as nat, 4));
    lemma_hex_padded_injective(a as nat, b as nat, 4);
}

/// Where the variants `_0001` to `_k` of one base are all claimed, there are at least
/// `k` claimed paths.
proof fn lemma_claimed_count(base: Seq<char>, used: Seq<Seq<char>>, existing: Seq<Seq<char>>, own: Seq<char>, k: int)
    requires
        1 <= k,
        forall|i: int| 1 <= i <= k ==> is_taken(#[trigger] variant(base, i), used, existing, own),
    ensures
        k <= used.len() + existing.len(),
{
    let idx = vstd::set_lib::set_int_range(1, k + 1);
    vstd::set_lib::lemma_int_range(1, k + 1);
    let f = |i: int| lowered(variant(base, i));
    let img = idx.map(f);
    let claimed = lowered_all(used).to_set() + lowered_all(existing).to_set();
    assert forall|a: int, b: int| idx.contains(a) && idx.contains(b) && #[trigger] f(a) == #[trigger] f(
        b,
    ) implies a == b by {
        lemma_lowered_variant_injective(base, a, b);
    }
    vstd::set_lib::lemma_map_size(idx, img, f);
    assert(img.subset_of(claimed)) by {
        assert forall|p: Seq<char>| img.contains(p) implies claimed.contains(p) by {
            let i = choose|i: int| idx.contains(i) && f(i) == p;
            let v = variant(base, i);
            assert(is_taken(v, used, existing, own));
            if used.contains(v) {
                let j = choose|j: int| 0 <= j < used.len() && used[j] == v;
                assert(lowered_all(used)[j] == lowered(v));
                assert(lowered_all(used).contains(p));
            }
        }
    }
    lowered_all(used).lemma_cardinality_of_set();
    lowered_all(existing).lemma_cardinality_of_set();
    vstd::set_lib::lemma_len_union(lowered_all(used).to_set(), lowered_all(existing).to_set());
    vstd::set_lib::lemma_len_subset(img, claimed);
}

/// With fewer than 2^32 - 1 claimed paths, the variant search ends on a free variant.
proof fn lemma_variant_free(base: Seq<char>, used: Seq<Seq<char>>, existing: Seq<Seq<char>>, own: Seq<char>)
    requires
        used.len() + existing.len() < 0xffff_ffff,
    ensures
        1 <= free_index_from(base, used, existing, own, 1) < 0x1_0000_0000,
        !is_taken(unique_variant(base, used, existing, own), used, existing, own),
{
    lemma_free_index_from(base, used, existing, own, 1);
}

proof fn lemma_free_index_from(
    base: Seq<char>,
    used: Seq<Seq<char>>,
    existing: Seq<Seq<char>>, own: Seq<char>,
    i: int,
)
    requires
        1 <= i < 0x1_0000_0000,
        used.len() + existing.len() < 0xffff_ffff,
        forall|j: int| 1 <= j < i ==> is_taken(#[trigger] variant(base, j), used, existing, own),
    ensures
        i <= free_index_from(base, used, existing, own, i) < 0x1_0000_0000,
        !is_taken(variant(base, free_index_from(base, used, existing, own, i)), used, existing, own),
        free_index_from(base, used, existing, own, 1) == free_index_from(base, used, existing, own, i) || i
            > 1,
    decreases 0x1_0000_0000 - i,
{
    if is_taken(variant(base, i), used, existing, own) {
        if i == 0xffff_ffff {
            lemma_claimed_count(base, used, existing, own, i);
        } else {
            lemma_free_index_from(base, used, existing, own, i + 1);
        }
    }
}

fn on_disk_exec(v: &Vec<String>, p: &Vec<char>) -> (r: bool)
    ensures
        r == on_disk(p@, names(v@)),
{
    let lp = lower_chars(p.as_slice());
    let mut i: usize = 0;
    while i < v.len()
        invariant
            i <= v@.len(),
            lp@ == lowered(p@),
            forall|k: int| 0 <= k < i ==> lowered_all(names(v@))[k] != lowered(p@),
        decreases v@.len() - i,
    {
        let c = chars_of(v[i].as_str());
        let lc = lower_chars(c.as_slice());
        assert(lowered_all(names(v@))[i as int] == lowered(v@[i as int]@));
        if same_chars(lc.as_slice(), lp.as_slice()) {
            return true;
        }
        i += 1;
    }
    false
}

fn contains_chars(v: &Vec<Vec<char>>, p: &Vec<char>) -> (r: bool)
    ensures
        r == views(v@).contains(p@),
{
    let mut i: usize = 0;
    while i < v.len()
        invariant
            i <= v@.len(),
            forall|k: int| 0 <= k < i ==> views(v@)[k] != p@,
        decreases v@.len() - i,
    {
        if same_chars(v[i].as_slice(), p.as_slice()) {
            assert(views(v@)[i as int] == p@);
            return true;
        }
        i += 1;
    }
    false
}

/// The first variant of `base`, `_0001` on, that neither the plan nor the disk claims for
/// the work now at `own`.
fn make_unique_path(
    base: &Vec<char>,
    used: &Vec<Vec<char>>,
    existing: &Vec<String>,
    own: &Vec<char>,
) -> (r: Vec<char>)
    requires
        used@.len() + existing@.len() < 0xffff_ffff,
    ensures
        r@ == unique_variant(base@, views(used@), names(existing@), own@),
        !is_taken(r@, views(used@), names(existing@), own@),
{
    let ghost u = views(used@);
    let ghost e = names(existing@);
    proof {
        lemma_variant_free(base@, u, e, own@);
    }
    let mut i: u32 = 1;
    loop
        invariant
            1 <= i < 0x1_0000_0000,
            u == views(used@),
            e == names(existing@),
            used@.len() + existing@.len() < 0xffff_ffff,
            forall|j: int| 1 <= j < i ==> is_taken(#[trigger] variant(base@, j), u, e, own@),
            i <= free_index_from(base@, u, e, own@, 1) < 0x1_0000_0000,
        decreases 0x1_0000_0000 - i,
    {
        let mut cand: Vec<char> = Vec::new();
        crate::text::push_all(&mut cand, base.as_slice());
        cand.push('_');
        push_hex_padded(&mut cand, i, 4);
        assert(cand@ =~= variant(base@, i as int));
        if !contains_chars(used, &cand) && !(on_disk_exec(existing, &cand) && !same_chars(
            cand.as_slice(),
            own.as_slice(),
        )) {
            proof {
                lemma_first_free(base@, u, e, own@, i as int);
            }
            return cand;
        }
        proof {
            lemma_taken_next(base@, u, e, own@, i as int);
        }
        i += 1;
    }
}

proof fn lemma_first_free(base: Seq<char>, used: Seq<Seq<char>>, existing: Seq<Seq<char>>, own: Seq<char>, i: int)
    requires
        1 <= i < 0x1_0000_0000,
        forall|j: int| 1 <= j < i ==> is_taken(#[trigger] variant(base, j), used, existing, own),
        !is_taken(variant(base, i), used, existing, own),
    ensures
        free_index_from(base, used, existing, own, 1) == i,
    decreases i,
{
    lemma_skip_taken(base, used, existing, own, 1, i);
}

proof fn lemma_skip_taken(
    base: Seq<char>,
    used: Seq<Seq<char>>,
    existing: Seq<Seq<char>>, own: Seq<char>,
    from: int,
    i: int,
)
    requires
        1 <= from <= i < 0x1_0000_0000,
        forall|j: int| 1 <= j < i ==> is_taken(#[trigger] variant(base, j), used, existing, own),
        !is_taken(variant(base, i), used, existing, own),
    ensures
        free_index_from(base, used, existing, own, from) == i,
    decreases i - from,
{
    if from < i {
        assert(is_taken(variant(base, from), used, existing, own));
        lemma_skip_taken(base, used, existing, own, from + 1, i);
    }
}

proof fn lemma_taken_next(base: Seq<char>, used: Seq<Seq<char>>, existing: Seq<Seq<char>>, own: Seq<char>, i: int)
    requires
        1 <= i < 0x1_0000_0000,
        forall|j: int| 1 <= j < i ==> is_taken(#[trigger] variant(base, j), used, existing, own),
        is_taken(variant(base, i), used, existing, own),
        i <= free_index_from(base, used, existing, own, 1) < 0x1_0000_0000,
    ensures
        i + 1 <= free_index_from(base, used, existing, own, 1),
{
    if free_index_from(base, used, existing, own, 1) == i {
        lemma_reach(base, used, existing, own, 1, i);
    }
}

proof fn lemma_reach(base: Seq<char>, used: Seq<Seq<char>>, existing: Seq<Seq<char>>, own: Seq<char>, from: int, i: int)
    requires
        1 <= from <= i < 0x1_0000_0000,
        forall|j: int| 1 <= j < i ==> is_taken(#[trigger] variant(base, j), used, existing, own),
        free_index_from(base, used, existing, own, from) == i,
    ensures
        !is_taken(variant(base, i), used, existing, own),
    decreases i - from,
{
    if from < i {
        assert(is_taken(variant(base, from), used, existing, own));
        lemma_reach(base, used, existing, own, from + 1, i);
    } else if is_taken(variant(base, i), used, existing, own) {
        lemma_free_index_ge(base, used, existing, own, i + 1);
    }
}

proof fn lemma_free_index_ge(base: Seq<char>, used: Seq<Seq<char>>, existing: Seq<Seq<char>>, own: Seq<char>, i: int)
    ensures
        free_index_from(base, used, existing, own, i) >= i,
    decreases 0x1_0000_0000 - i,
{
    if i < 0x1_0000_0000 && is_taken(variant(base, i), used, existing, own) {
        lemma_free_index_ge(base, used, existing, own, i + 1);
    }
}

/// The new paths a plan claims, in order.
pub open spec fn claimed_paths(plan: Seq<PlanEntry>) -> Seq<Seq<char>> {
    plan.map_values(|e: PlanEntry| e.new_path)
}

/// Computes where each work goes under `new_template`: a work whose resolved path is
/// taken by an earlier move, or by a directory on disk (`existing`) that is not its own,
/// gets the first free variant `_0001`, `_0002`, ...; works already in place are left out.
pub fn compute_relocation_plan(
    works: &Vec<WorkDetail>,
    library_root: &str,
    new_template: &str,
    type_label: &str,
    existing: &Vec<String>,
) -> (r: Vec<RelocationPreview>)
    requires
        works@.len() + existing@.len() < 0xffff_ffff,
    ensures
        entries(r@) == relocation_plan(
            works@,
            library_root@,
            new_template@,
            type_label@,
            names(existing@),
        ),
{
    let ghost e = names(existing@);
    let mut used: Vec<Vec<char>> = Vec::new();
    let mut previews: Vec<RelocationPreview> = Vec::new();
    let mut i: usize = 0;
    while i < works.len()
        invariant
            i <= works@.len(),
            works@.len() + existing@.len() < 0xffff_ffff,
            e == names(existing@),
            entries(previews@) == relocation_plan(
                works@.subrange(0, i as int),
                library_root@,
                new_template@,
                type_label@,
                e,
            ),
            views(used@) == claimed_paths(entries(previews@)),
            used@.len() <= i,
        decreases works@.len() - i,
    {
        let ghost plan = entries(previews@);
        let w = &works[i];
        proof {
            let now = works@.subrange(0, i + 1);
            assert(now.drop_last() =~= works@.subrange(0, i as int));
            assert(now.last() == *w);
        }
        let metadata = work_detail_to_metadata(w, type_label);
        let base_text = resolve_work_path(library_root, new_template, &metadata);
        let base = chars_of(base_text.as_str());
        let old = chars_of(w.path.as_str());
        let new_path = if contains_chars(&used, &base) || (on_disk_exec(existing, &base)
            && !same_chars(base.as_slice(), old.as_slice())) {
            make_unique_path(&base, &used, existing, &old)
        } else {
            base
        };
        if !same_chars(new_path.as_slice(), old.as_slice()) {
            let ghost before_used = views(used@);
            used.push(dup(&new_path));
            let item = RelocationPreview {
                work_id: w.id,
                title: copy_text(&w.title),
                old_path: copy_text(&w.path),
                new_path: string_of(new_path.as_slice()),
            };
            let ghost before = entries(previews@);
            previews.push(item);
            proof {
                assert(entries(previews@) =~= before.push(item@));
                assert(views(used@) =~= before_used.push(new_path@));
                assert(claimed_paths(entries(previews@)) =~= claimed_paths(before).push(new_path@));
            }
        }
        i += 1;
    }
    assert(works@.subrange(0, works@.len() as int) =~= works@);
    previews
}

/// Every move of a plan goes to a path of its own: no two entries share a new path,
/// two works that resolve to the same base path included, and no entry goes where a
/// file or directory already stands, whatever the case of its letters.
pub proof fn lemma_plan_paths_distinct(
    works: Seq<WorkDetail>,
    root: Seq<char>,
    t: Seq<char>,
    label: Seq<char>,
    existing: Seq<Seq<char>>,
)
    requires
        works.len() + existing.len() < 0xffff_ffff,
    ensures
        relocation_plan(works, root, t, label, existing).len() <= works.len(),
        forall|i: int, j: int|
            0 <= i < j < relocation_plan(works, root, t, label, existing).len() ==> (#[trigger] relocation_plan(
                works,
                root,
                t,
                label,
                existing,
            )[i]).new_path != (#[trigger] relocation_plan(works, root, t, label, existing)[j]).new_path,
        forall|i: int|
            0 <= i < relocation_plan(works, root, t, label, existing).len() ==> !on_disk(
                (#[trigger] relocation_plan(works, root, t, label, existing)[i]).new_path,
                existing,
            ),
    decreases works.len(),
{
    if works.len() > 0 {
        let front = works.drop_last();
        lemma_plan_paths_distinct(front, root, t, label, existing);
        let plan = relocation_plan(front, root, t, label, existing);
        let w = works.last();
        let used = claimed_paths(plan);
        let base = resolved_path(root, t, metadata_of(w, label));
        assert(used == plan.map_values(|e: PlanEntry| e.new_path));
        if is_taken(base, used, existing, w.path@) {
            lemma_variant_free(base, used, existing, w.path@);
        }
        let next = relocation_plan(works, root, t, label, existing);
        assert(next == plan_step(plan, w, root, t, label, existing));
        if next.len() > plan.len() {
            let np = next.last().new_path;
            assert(np != w.path@);
            assert(!used.contains(np));
            assert(!on_disk(np, existing));
            assert forall|i: int| 0 <= i < plan.len() implies plan[i].new_path != np by {
                assert(used[i] == plan[i].new_path);
            }
            assert forall|i: int, j: int| 0 <= i < j < next.len() implies (#[trigger] next[i]).new_path
                != (#[trigger] next[j]).new_path by {
                if j < plan.len() {
                    assert(next[i] == plan[i] && next[j] == plan[j]);
                } else {
                    assert(next[i] == plan[i]);
                }
            }
            assert forall|i: int| 0 <= i < next.len() implies !on_disk(
                (#[trigger] next[i]).new_path,
                existing,
            ) by {
                if i < plan.len() {
                    assert(next[i] == plan[i]);
                }
            }
        }
    }
}

/// A plan made for works that already sit at their resolved paths is empty: after a
/// relocation that gave each work its resolved path, relocating again with the same
/// template moves nothing.
pub proof fn lemma_plan_empty_when_in_place(
    works: Seq<WorkDetail>,
    root: Seq<char>,
    t: Seq<char>,
    label: Seq<char>,
    existing: Seq<Seq<char>>,
)
    requires
        forall|k: int|
            0 <= k < works.len() ==> (#[trigger] works[k]).path@ == resolved_path(
                root,
                t,
                metadata_of(works[k], label),
            ),
    ensures
        relocation_plan(works, root, t, label, existing).len() == 0,
    decreases works.len(),
{
    if works.len() > 0 {
        let front = works.drop_last();
        assert forall|k: int| 0 <= k < front.len() implies (#[trigger] front[k]).path@
            == resolved_path(root, t, metadata_of(front[k], label)) by {
            assert(front[k] == works[k]);
        }
        lemma_plan_empty_when_in_place(front, root, t, label, existing);
        let w = works.last();
        assert(w == works[works.len() - 1]);
        assert(claimed_paths(relocation_plan(front, root, t, label, existing)) =~= seq![]);
    }
}

/// Two stored works that render alike: the same title, artist, year, genre, circle and
/// origin.
pub open spec fn same_metadata(a: WorkDetail, b: WorkDetail) -> bool {
    &&& a.title@ == b.title@
    &&& opt_chars(a.artist) == opt_chars(b.artist)
    &&& a.year == b.year
    &&& opt_chars(a.genre) == opt_chars(b.genre)
    &&& opt_chars(a.circle) == opt_chars(b.circle)
    &&& opt_chars(a.origin) == opt_chars(b.origin)
}

/// The paths the first plan claims before it comes to work `k`.
pub open spec fn used_before(
    works: Seq<WorkDetail>,
    k: int,
    root: Seq<char>,
    t: Seq<char>,
    label: Seq<char>,
    existing: Seq<Seq<char>>,
) -> Seq<Seq<char>> {
    claimed_paths(relocation_plan(works.subrange(0, k), root, t, label, existing))
}

/// Whether the plan found work `k`'s resolved path taken and searched for a variant.
pub open spec fn searched(
    works: Seq<WorkDetail>,
    k: int,
    root: Seq<char>,
    t: Seq<char>,
    label: Seq<char>,
    existing: Seq<Seq<char>>,
) -> bool {
    is_taken(
        resolved_path(root, t, metadata_of(works[k], label)),
        used_before(works, k, root, t, label, existing),
        existing,
        works[k].path@,
    )
}

/// The number of the variant the search for work `k` took.
pub open spec fn taken_variant(
    works: Seq<WorkDetail>,
    k: int,
    root: Seq<char>,
    t: Seq<char>,
    label: Seq<char>,
    existing: Seq<Seq<char>>,
) -> int {
    free_index_from(
        resolved_path(root, t, metadata_of(works[k], label)),
        used_before(works, k, root, t, label, existing),
        existing,
        works[k].path@,
        1,
    )
}

/// Relocating twice with one template moves nothing the second time. `after` holds the
/// works as the first relocation leaves them, each at the path the first plan chose for
/// it, and `existing_after` is what is on disk then. It must still hold what the first
/// plan's search passed over: for a work that needed a variant, its resolved path and the
/// variants before the one it took (a removed folder there would free a name).
pub proof fn lemma_relocation_idempotent(
    works: Seq<WorkDetail>,
    after: Seq<WorkDetail>,
    root: Seq<char>,
    t: Seq<char>,
    label: Seq<char>,
    existing: Seq<Seq<char>>,
    existing_after: Seq<Seq<char>>,
)
    requires
        works.len() + existing.len() < 0xffff_ffff,
        after.len() == works.len(),
        forall|k: int|
            0 <= k < works.len() ==> same_metadata(#[trigger] after[k], works[k]) && after[k].path@
                == chosen_path(
                relocation_plan(works.subrange(0, k), root, t, label, existing),
                works[k],
                root,
                t,
                label,
                existing,
            ),
        forall|k: int|
            0 <= k < works.len() && #[trigger] searched(works, k, root, t, label, existing)
                ==> on_disk(resolved_path(root, t, metadata_of(works[k], label)), existing_after),
        forall|k: int, j: int|
            0 <= k < works.len() && searched(works, k, root, t, label, existing) && 1 <= j
                < taken_variant(works, k, root, t, label, existing) ==> on_disk(
                #[trigger] variant(resolved_path(root, t, metadata_of(works[k], label)), j),
                existing_after,
            ),
    ensures
        relocation_plan(after, root, t, label, existing_after).len() == 0,
    decreases after.len(),
{
    if after.len() > 0 {
        let n = (after.len() - 1) as int;
        let front = works.subrange(0, n);
        let front_after = after.drop_last();
        assert forall|k: int| 0 <= k < front.len() implies same_metadata(
            #[trigger] front_after[k],
            front[k],
        ) && front_after[k].path@ == chosen_path(
            relocation_plan(front.subrange(0, k), root, t, label, existing),
            front[k],
            root,
            t,
            label,
            existing,
        ) by {
            assert(front_after[k] == after[k]);
            assert(front[k] == works[k]);
            assert(front.subrange(0, k) =~= works.subrange(0, k));
        }
        assert forall|k: int|
            0 <= k < front.len() && #[trigger] searched(
                front,
                k,
                root,
                t,
                label,
                existing,
            ) implies on_disk(
            resolved_path(root, t, metadata_of(front[k], label)),
            existing_after,
        ) by {
            assert(front[k] == works[k]);
            assert(front.subrange(0, k) =~= works.subrange(0, k));
            assert(searched(works, k, root, t, label, existing));
        }
        assert forall|k: int, j: int|
            0 <= k < front.len() && searched(front, k, root, t, label, existing) && 1 <= j
                < taken_variant(front, k, root, t, label, existing) implies on_disk(
            #[trigger] variant(resolved_path(root, t, metadata_of(front[k], label)), j),
            existing_after,
        ) by {
            assert(front[k] == works[k]);
            assert(front.subrange(0, k) =~= works.subrange(0, k));
            assert(searched(works, k, root, t, label, existing));
        }
        lemma_relocation_idempotent(front, front_after, root, t, label, existing, existing_after);
        lemma_stays_put(works, after, root, t, label, existing, existing_after, n);
        let plan2 = relocation_plan(front_after, root, t, label, existing_after);
        assert(plan2 =~= seq![]);
        assert(chosen_path(plan2, after[n], root, t, label, existing_after) == after[n].path@);
        assert(after.drop_last() == front_after);
        assert(relocation_plan(after, root, t, label, existing_after) == plan_step(
            plan2,
            after[n],
            root,
            t,
            label,
            existing_after,
        ));
    }
}

/// With nothing planned before it, work `k` of `after` stays where it is.
proof fn lemma_stays_put(
    works: Seq<WorkDetail>,
    after: Seq<WorkDetail>,
    root: Seq<char>,
    t: Seq<char>,
    label: Seq<char>,
    existing: Seq<Seq<char>>,
    existing_after: Seq<Seq<char>>,
    k: int,
)
    requires
        0 <= k < works.len(),
        works.len() + existing.len() < 0xffff_ffff,
        after.len() == works.len(),
        same_metadata(after[k], works[k]),
        after[k].path@ == chosen_path(
            relocation_plan(works.subrange(0, k), root, t, label, existing),
            works[k],
            root,
            t,
            label,
            existing,
        ),
        searched(works, k, root, t, label, existing) ==> on_disk(
            resolved_path(root, t, metadata_of(works[k], label)),
            existing_after,
        ),
        forall|j: int|
            searched(works, k, root, t, label, existing) && 1 <= j < taken_variant(
                works,
                k,
                root,
                t,
                label,
                existing,
            ) ==> on_disk(
                #[trigger] variant(resolved_path(root, t, metadata_of(works[k], label)), j),
                existing_after,
            ),
    ensures
        chosen_path(seq![], after[k], root, t, label, existing_after) == after[k].path@,
{
    let w = works[k];
    let base = resolved_path(root, t, metadata_of(w, label));
    assert(metadata_of(after[k], label) == metadata_of(w, label));
    let plan1 = relocation_plan(works.subrange(0, k), root, t, label, existing);
    let used = claimed_paths(plan1);
    assert(used == plan1.map_values(|e: PlanEntry| e.new_path));
    let own = after[k].path@;
    let none: Seq<Seq<char>> = seq![];
    assert(seq![].map_values(|e: PlanEntry| e.new_path) =~= none);
    if searched(works, k, root, t, label, existing) {
        lemma_plan_paths_distinct(works.subrange(0, k), root, t, label, existing);
        lemma_variant_free(base, used, existing, w.path@);
        let i = taken_variant(works, k, root, t, label, existing);
        assert(own == variant(base, i));
        assert(own.len() > base.len());
        assert(is_taken(base, none, existing_after, own));
        assert forall|j: int| 1 <= j < i implies is_taken(
            #[trigger] variant(base, j),
            none,
            existing_after,
            own,
        ) by {
            assert(on_disk(variant(base, j), existing_after));
            if variant(base, j) == own {
                lemma_variant_injective(base, j, i);
            }
        }
        lemma_first_free(base, none, existing_after, own, i);
    } else {
        assert(own == base);
    }
}

/// The steps of moving one work of a plan. Each stage names the work to do next;
/// `Relocated`, `Skipped` and `Failed` end it.
#[derive(Clone, Copy, Debug, PartialEq, Eq, Structural)]
pub enum MoveStage {
    CheckSource,
    CopyFiles,
    UpdateStore,
    RemoveOld,
    CleanUp,
    RemoveNew,
    Relocated,
    Skipped,
    Failed,
}

pub open spec fn next_move_stage(stage: MoveStage, ok: bool) -> MoveStage {
    match stage {
        MoveStage::CheckSource => if ok {
            MoveStage::CopyFiles
        } else {
            MoveStage::Skipped
        },
        MoveStage::CopyFiles => if ok {
            MoveStage::UpdateStore
        } else {
            MoveStage::RemoveNew
        },
        MoveStage::UpdateStore => if ok {
            MoveStage::RemoveOld
        } else {
            MoveStage::RemoveNew
        },
        MoveStage::RemoveOld => MoveStage::CleanUp,
        MoveStage::CleanUp => MoveStage::Relocated,
        MoveStage::RemoveNew => MoveStage::Failed,
        MoveStage::Relocated => MoveStage::Relocated,
        MoveStage::Skipped => MoveStage::Skipped,
        MoveStage::Failed => MoveStage::Failed,
    }
}

/// Decides the next step of moving one work: a work whose folder is gone is skipped;
/// the files are copied, the store updated, and only then are the old files removed and
/// emptied parents cleaned up; a failed copy or update removes the new folder and keeps
/// the old one.
pub fn move_step(stage: MoveStage, ok: bool) -> (r: MoveStage)
    ensures
        r == next_move_stage(stage, ok),
        r == MoveStage::RemoveOld ==> stage == MoveStage::UpdateStore && ok,
        r == MoveStage::RemoveNew ==> (stage == MoveStage::CopyFiles || stage
            == MoveStage::UpdateStore) && !ok,
{
    match stage {
        MoveStage::CheckSource => if ok {
            MoveStage::CopyFiles
        } else {
            MoveStage::Skipped
        },
        MoveStage::CopyFiles => if ok {
            MoveStage::UpdateStore
        } else {
            MoveStage::RemoveNew
        },
        MoveStage::UpdateStore => if ok {
            MoveStage::RemoveOld
        } else {
            MoveStage::RemoveNew
        },
        MoveStage::RemoveOld => MoveStage::CleanUp,
        MoveStage::CleanUp => MoveStage::Relocated,
        MoveStage::RemoveNew => MoveStage::Failed,
        MoveStage::Relocated => MoveStage::Relocated,
        MoveStage::Skipped => MoveStage::Skipped,
        MoveStage::Failed => MoveStage::Failed,
    }
}

/// How many works a relocation moved, skipped and failed to move.
pub struct RelocationTally {
    pub relocated: usize,
    pub skipped: usize,
    pub failed: usize,
}

impl RelocationTally {
    pub fn new() -> (r: RelocationTally)
        ensures
            r.relocated == 0 && r.skipped == 0 && r.failed == 0,
    {
        RelocationTally { relocated: 0, skipped: 0, failed: 0 }
    }

    /// Counts one finished move by the stage it ended in.
    pub fn record(&mut self, end: MoveStage)
        requires
            old(self).relocated + old(self).skipped + old(self).failed < usize::MAX,
        ensures
            final(self).relocated == old(self).relocated + if end == MoveStage::Relocated {
                1int
            } else {
                0int
            },
            final(self).skipped == old(self).skipped + if end == MoveStage::Skipped {
                1int
            } else {
                0int
            },
            final(self).failed == old(self).failed + if end == MoveStage::Failed {
                1int
            } else {
                0int
            },
    {
        match end {
            MoveStage::Relocated => self.relocated += 1,
            MoveStage::Skipped => self.skipped += 1,
            MoveStage::Failed => self.failed += 1,
            _ => {},
        }
    }
}

/// The text of a list of components whose first may be the root `/`.
pub open spec fn components_text(c: Seq<Seq<char>>) -> Seq<char> {
    if c.len() > 0 && c[0] == seq!['/'] {
        seq!['/'] + join_slash(c.drop_first())
    } else {
        join_slash(c)
    }
}

/// The parents of `p` that lie strictly inside `stop`, nearest first: the folders an
/// emptied work folder may leave empty. None where `p` is not inside `stop`.
pub open spec fn cleanup_chain(p: Seq<char>, stop: Seq<char>) -> Seq<Seq<char>> {
    let c = components(p);
    let s = components(stop);
    if path_starts_with(p, stop) && c.len() > s.len() + 1 {
        Seq::new(
            (c.len() - 1 - s.len()) as nat,
            |i: int| components_text(c.subrange(0, c.len() - 1 - i)),
        )
    } else {
        seq![]
    }
}

fn prefix_text(c: &Vec<Vec<char>>, k: usize) -> (r: String)
    requires
        k <= c@.len(),
    ensures
        r@ == components_text(views(c@).subrange(0, k as int)),
{
    let mut parts: Vec<Vec<char>> = Vec::new();
    let rooted = k > 0 && c[0].len() == 1 && c[0][0] == '/';
    let from: usize = if rooted {
        1
    } else {
        0
    };
    let mut i = from;
    while i < k
        invariant
            from <= i <= k <= c@.len(),
            views(parts@) == views(c@).subrange(from as int, i as int),
        decreases k - i,
    {
        let ghost before = views(parts@);
        let ghost item = c@[i as int]@;
        assert(views(c@)[i as int] == item);
        parts.push(dup(&c[i]));
        assert(views(parts@) =~= before.push(item));
        i += 1;
        assert(views(c@).subrange(from as int, i as int) =~= views(c@).subrange(from as int, i - 1).push(
            item,
        ));
    }
    let mut out: Vec<char> = Vec::new();
    if rooted {
        out.push('/');
    }
    push_joined(&mut out, &parts);
    proof {
        let pre = views(c@).subrange(0, k as int);
        if k > 0 {
            assert(pre[0] == c@[0]@);
            if c@[0]@.len() == 1 && c@[0]@[0] == '/' {
                assert(c@[0]@ =~= seq!['/']);
            }
            if pre[0] == seq!['/'] {
                assert(c@[0]@[0] == '/');
            }
        }
        if rooted {
            assert(pre.drop_first() =~= views(parts@));
        } else {
            assert(pre =~= views(parts@));
        }
        assert(out@ =~= components_text(pre));
    }
    string_of(out.as_slice())
}

/// The parents of `path` to try removing, nearest first, once a work folder has been
/// emptied: each one strictly inside `stop_at`. Removal stops at the first one that is
/// not empty.
pub fn cleanup_candidates(path: &str, stop_at: &str) -> (r: Vec<String>)
    ensures
        names(r@) == cleanup_chain(path@, stop_at@),
{
    let c = component_list(path);
    let s = component_list(stop_at);
    let mut out: Vec<String> = Vec::new();
    if !starts_with_parts(&c, &s) || c.len() <= s.len() || c.len() - s.len() <= 1 {
        assert(names(out@) =~= cleanup_chain(path@, stop_at@));
        return out;
    }
    let n = c.len();
    let mut k = n - 1;
    while k > s.len()
        invariant
            n == c@.len(),
            views(c@) == components(path@),
            views(s@) == components(stop_at@),
            s@.len() <= k <= n - 1,
            n > s@.len() + 1,
            path_starts_with(path@, stop_at@),
            out@.len() == n - 1 - k,
            forall|i: int|
                0 <= i < out@.len() ==> #[trigger] names(out@)[i] == components_text(
                    views(c@).subrange(0, n - 1 - i),
                ),
        decreases k,
    {
        let t = prefix_text(&c, k);
        let ghost before = names(out@);
        out.push(t);
        assert(names(out@) =~= before.push(t@));
        k -= 1;
    }
    assert(names(out@) =~= cleanup_chain(path@, stop_at@));
    out
}

/// The events a relocation reports.
pub enum RelocationProgress {
    Started { total: usize },
    Moving { current: usize, total: usize, title: String },
    Completed { relocated: usize, skipped: usize, failed: usize },
    Error { message: String },
}

} // verus!
