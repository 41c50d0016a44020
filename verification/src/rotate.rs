//! The retention engine: partition timestamp-named files into buckets at
//! a granularity, keep the most recent file of every completed bucket,
//! and plan the removal of the rest.
//!
//! The engine is pure: it reads a directory listing handed in by the
//! caller and returns the files to remove, pass by pass. The caller
//! deletes or moves them, in the order planned, and stops at the first
//! failure. Because the timestamp prefix is fixed-width and zero-padded,
//! lexicographic order on names equals chronological order.
use crate::config::ConfigTaskRotate;
use crate::task::Task;
use crate::text::clone_strings;
use crate::text::lex_lt;
use crate::text::str_eq;
use crate::text::str_views;
use crate::time::is_digit;
use vstd::prelude::*;

verus! {

/// One retention resolution: the length of the timestamp prefix that
/// names its bucket.
#[derive(Clone, Copy, PartialEq, Eq, Structural, Debug)]
pub enum Granularity {
    Hourly,
    Daily,
    Monthly,
    Yearly,
}

/// How many leading characters of a canonical timestamp name a bucket:
/// `YYYY-MM-DD_HH` for hours down to `YYYY` for years.
pub open spec fn key_len(g: Granularity) -> int {
    match g {
        Granularity::Hourly => 13,
        Granularity::Daily => 10,
        Granularity::Monthly => 7,
        Granularity::Yearly => 4,
    }
}

/// What position `i` of a timestamp prefix must hold: a separator at the
/// fixed separator positions, a digit everywhere else.
pub open spec fn shape_at(s: Seq<char>, i: int) -> bool {
    if i == 4 || i == 7 {
        s[i] == '-'
    } else if i == 10 {
        s[i] == '_'
    } else {
        is_digit(s[i])
    }
}

/// Whether a file name starts with a full bucket key of granularity `g`.
pub open spec fn matches_gran(s: Seq<char>, g: Granularity) -> bool {
    s.len() >= key_len(g) && forall|i: int| 0 <= i < key_len(g) ==> #[trigger] shape_at(s, i)
}

/// The bucket key of a matching name: its truncated timestamp prefix.
pub open spec fn key_of(s: Seq<char>, g: Granularity) -> Seq<char> {
    s.take(key_len(g))
}

/// Whether `f` is removed by a pass of granularity `g` over `files`:
/// it carries a bucket key, a strictly later bucket exists (so `f`'s
/// bucket is complete), and a strictly later member of `f`'s own bucket
/// exists (so `f` is not the survivor).
pub open spec fn is_victim(files: Seq<Seq<char>>, f: Seq<char>, g: Granularity) -> bool {
    &&& matches_gran(f, g)
    &&& exists|j: int|
        0 <= j < files.len() && matches_gran(#[trigger] files[j], g) && lex_lt(
            key_of(f, g),
            key_of(files[j], g),
        )
    &&& exists|j: int|
        0 <= j < files.len() && matches_gran(#[trigger] files[j], g) && key_of(files[j], g)
            == key_of(f, g) && lex_lt(f, files[j])
}

/// The length of a bucket key at granularity `a_gran`.
pub fn gran_len(a_gran: Granularity) -> (n: usize)
    ensures
        n as int == key_len(a_gran),
{
    match a_gran {
        Granularity::Hourly => 13,
        Granularity::Daily => 10,
        Granularity::Monthly => 7,
        Granularity::Yearly => 4,
    }
}

/// Whether `a_name` starts with a full bucket key of `a_gran`.
pub fn has_bucket_key(a_name: &str, a_gran: Granularity) -> (r: bool)
    ensures
        r == matches_gran(a_name@, a_gran),
{
    let n = gran_len(a_gran);
    if a_name.unicode_len() < n {
        return false;
    }
    let mut i: usize = 0;
    while i < n
        invariant
            i <= n,
            n as int == key_len(a_gran),
            n <= a_name@.len(),
            forall|j: int| 0 <= j < i ==> #[trigger] shape_at(a_name@, j),
        decreases n - i,
    {
        let c = a_name.get_char(i);
        if i == 4 || i == 7 {
            if c != '-' {
                assert(!shape_at(a_name@, i as int));
                return false;
            }
        } else if i == 10 {
            if c != '_' {
                assert(!shape_at(a_name@, i as int));
                return false;
            }
        } else {
            let u = c as u32;
            if u < 48 || u > 57 {
                assert(!shape_at(a_name@, i as int));
                return false;
            }
        }
        i = i + 1;
    }
    true
}

/// Whether some matching file in the listing lies in a strictly later
/// bucket than `a_file`'s.
fn exists_later_bucket(a_files: &Vec<String>, a_file: &str, a_gran: Granularity) -> (r: bool)
    requires
        matches_gran(a_file@, a_gran),
    ensures
        r == exists|j: int|
            0 <= j < a_files@.len() && matches_gran(#[trigger] str_views(a_files@)[j], a_gran)
                && lex_lt(key_of(a_file@, a_gran), key_of(str_views(a_files@)[j], a_gran)),
{
    let n = a_files.len();
    let klen = gran_len(a_gran);
    let my_key = a_file.substring_char(0, klen);
    let mut j: usize = 0;
    while j < n
        invariant
            j <= n,
            n == a_files@.len(),
            klen as int == key_len(a_gran),
            matches_gran(a_file@, a_gran),
            my_key@ == key_of(a_file@, a_gran),
            forall|p: int|
                0 <= p < j ==> !(matches_gran(#[trigger] str_views(a_files@)[p], a_gran) && lex_lt(
                    key_of(a_file@, a_gran),
                    key_of(str_views(a_files@)[p], a_gran),
                )),
        decreases n - j,
    {
        let cand = &a_files[j];
        if has_bucket_key(cand.as_str(), a_gran) {
            let cand_key = cand.as_str().substring_char(0, klen);
            if crate::text::str_lex_lt(my_key, cand_key) {
                proof {
                    assert(str_views(a_files@)[j as int] == a_files@[j as int]@);
                    assert(cand_key@ =~= key_of(a_files@[j as int]@, a_gran));
                }
                return true;
            }
        }
        j = j + 1;
    }
    false
}

/// Whether some matching file in the listing shares `a_file`'s bucket
/// and is strictly later than it.
fn exists_greater_in_bucket(a_files: &Vec<String>, a_file: &str, a_gran: Granularity) -> (r: bool)
    requires
        matches_gran(a_file@, a_gran),
    ensures
        r == exists|j: int|
            0 <= j < a_files@.len() && matches_gran(#[trigger] str_views(a_files@)[j], a_gran)
                && key_of(str_views(a_files@)[j], a_gran) == key_of(a_file@, a_gran) && lex_lt(
                a_file@,
                str_views(a_files@)[j],
            ),
{
    let n = a_files.len();
    let klen = gran_len(a_gran);
    let my_key = a_file.substring_char(0, klen);
    let mut j: usize = 0;
    while j < n
        invariant
            j <= n,
            n == a_files@.len(),
            klen as int == key_len(a_gran),
            matches_gran(a_file@, a_gran),
            my_key@ == key_of(a_file@, a_gran),
            forall|p: int|
                0 <= p < j ==> !(matches_gran(#[trigger] str_views(a_files@)[p], a_gran) && key_of(
                    str_views(a_files@)[p],
                    a_gran,
                ) == key_of(a_file@, a_gran) && lex_lt(a_file@, str_views(a_files@)[p])),
        decreases n - j,
    {
        let cand = &a_files[j];
        if has_bucket_key(cand.as_str(), a_gran) {
            let cand_key = cand.as_str().substring_char(0, klen);
            proof {
                assert(str_views(a_files@)[j as int] == a_files@[j as int]@);
                assert(cand_key@ =~= key_of(a_files@[j as int]@, a_gran));
            }
            if str_eq(cand_key, my_key) && crate::text::str_lex_lt(a_file, cand.as_str()) {
                return true;
            }
        }
        j = j + 1;
    }
    false
}

/// Whether a pass of granularity `a_gran` over this listing removes
/// `a_file`.
pub fn is_victim_file(a_files: &Vec<String>, a_file: &str, a_gran: Granularity) -> (r: bool)
    ensures
        r == is_victim(str_views(a_files@), a_file@, a_gran),
{
    if !has_bucket_key(a_file, a_gran) {
        return false;
    }
    exists_later_bucket(a_files, a_file, a_gran) && exists_greater_in_bucket(
        a_files,
        a_file,
        a_gran,
    )
}

/// The files a pass of granularity `g` removes from this listing, in
/// listing order.
pub open spec fn pass_victims_spec(files: Seq<String>, g: Granularity) -> Seq<String> {
    files.filter(|s: String| is_victim(str_views(files), s@, g))
}

/// The files a pass of granularity `g` leaves in place, in listing
/// order: the most recent file of every bucket, every file of the
/// still-open latest bucket, and every file without a bucket key.
pub open spec fn pass_survivors_spec(files: Seq<String>, g: Granularity) -> Seq<String> {
    files.filter(|s: String| !is_victim(str_views(files), s@, g))
}

/// Split a listing into one pass's victims and survivors, both in
/// listing order.
fn pass_split(a_files: &Vec<String>, a_gran: Granularity) -> (r: (Vec<String>, Vec<String>))
    ensures
        r.0@ == pass_victims_spec(a_files@, a_gran),
        r.1@ == pass_survivors_spec(a_files@, a_gran),
{
    let n = a_files.len();
    let mut victims: Vec<String> = Vec::new();
    let mut survivors: Vec<String> = Vec::new();
    let mut i: usize = 0;
    proof {
        reveal(Seq::filter);
        assert(a_files@.take(0) =~= Seq::<String>::empty());
    }
    while i < n
        invariant
            i <= n,
            n == a_files@.len(),
            victims@ == a_files@.take(i as int).filter(
                |s: String| is_victim(str_views(a_files@), s@, a_gran),
            ),
            survivors@ == a_files@.take(i as int).filter(
                |s: String| !is_victim(str_views(a_files@), s@, a_gran),
            ),
        decreases n - i,
    {
        let ghost pre = a_files@.take(i as int);
        let ghost post = a_files@.take(i + 1);
        proof {
            reveal(Seq::filter);
            assert(post.drop_last() =~= pre);
            assert(post.last() == a_files@[i as int]);
            assert(str_views(a_files@)[i as int] == a_files@[i as int]@);
        }
        let f = &a_files[i];
        if is_victim_file(a_files, f.as_str(), a_gran) {
            victims.push(f.clone());
        } else {
            survivors.push(f.clone());
        }
        i = i + 1;
    }
    proof {
        assert(a_files@.take(n as int) =~= a_files@);
    }
    (victims, survivors)
}

/// What happens to a file that loses its bucket.
#[derive(Clone, Copy, PartialEq, Eq, Structural, Debug)]
pub enum Strategy {
    Delete,
    Move,
    Unsupported,
}

/// The strategy a configuration string names: `delete`, `move`, or
/// anything else, which disables rotation with an error.
pub open spec fn strategy_of(s: Seq<char>) -> Strategy {
    if s == "delete"@ {
        Strategy::Delete
    } else if s == "move"@ {
        Strategy::Move
    } else {
        Strategy::Unsupported
    }
}

/// Why a rotation call failed before touching any file.
#[derive(Clone, Copy, PartialEq, Eq, Structural, Debug)]
pub enum RotateError {
    UnknownStrategy,
}

/// The subdirectory of a task directory that the move strategy fills.
pub const DIRECTORY_MOVE: &'static str = "moved";

/// One pass of a rotation plan: the granularity and the files it
/// removes, in listing order.
#[derive(Debug)]
pub struct RotatePass {
    pub granularity: Granularity,
    pub victims: Vec<String>,
}

/// The mathematical content of a pass list.
pub open spec fn pass_views(ps: Seq<RotatePass>) -> Seq<(Granularity, Seq<String>)> {
    ps.map_values(|p: RotatePass| (p.granularity, p.victims@))
}

/// A whole rotation call, planned: the strategy to apply and the passes
/// in cascade order.
#[derive(Debug)]
pub struct RotatePlan {
    pub strategy: Strategy,
    pub passes: Vec<RotatePass>,
}

/// The granularities a task rotates, in the fixed cascade order:
/// hourly, daily, monthly, yearly.
pub open spec fn enabled_grans(r: ConfigTaskRotate) -> Seq<Granularity> {
    (if r.hourly {
        seq![Granularity::Hourly]
    } else {
        Seq::<Granularity>::empty()
    }) + (if r.daily {
        seq![Granularity::Daily]
    } else {
        Seq::<Granularity>::empty()
    }) + (if r.monthly {
        seq![Granularity::Monthly]
    } else {
        Seq::<Granularity>::empty()
    }) + (if r.yearly {
        seq![Granularity::Yearly]
    } else {
        Seq::<Granularity>::empty()
    })
}

/// The passes of a rotation call: each granularity in turn plans its
/// victims against the listing as the previous pass leaves it — an
/// earlier pass's removals are visible to every later pass.
pub open spec fn plan_passes_spec(files: Seq<String>, gs: Seq<Granularity>) -> Seq<
    (Granularity, Seq<String>),
>
    decreases gs.len(),
{
    if gs.len() == 0 {
        Seq::<(Granularity, Seq<String>)>::empty()
    } else {
        seq![(gs[0], pass_victims_spec(files, gs[0]))] + plan_passes_spec(
            pass_survivors_spec(files, gs[0]),
            gs.drop_first(),
        )
    }
}

/// The listing as it stands when pass `i` begins: the full listing with
/// every earlier pass's victims taken out.
pub open spec fn listing_before_pass(files: Seq<String>, gs: Seq<Granularity>, i: int) -> Seq<
    String,
>
    decreases i,
{
    if i <= 0 {
        files
    } else {
        pass_survivors_spec(listing_before_pass(files, gs, i - 1), gs[i - 1])
    }
}

/// The enabled granularities, in cascade order.
fn enabled_list(a_rotate: &ConfigTaskRotate) -> (r: Vec<Granularity>)
    ensures
        r@ == enabled_grans(*a_rotate),
{
    let mut v: Vec<Granularity> = Vec::new();
    if a_rotate.hourly {
        v.push(Granularity::Hourly);
    }
    if a_rotate.daily {
        v.push(Granularity::Daily);
    }
    if a_rotate.monthly {
        v.push(Granularity::Monthly);
    }
    if a_rotate.yearly {
        v.push(Granularity::Yearly);
    }
    proof {
        assert(v@ =~= enabled_grans(*a_rotate));
    }
    v
}

/// Run the cascade over a listing: one pass per granularity, each
/// against the listing the previous pass left.
fn run_passes(a_files: &Vec<String>, a_grans: &Vec<Granularity>) -> (r: Vec<RotatePass>)
    ensures
        pass_views(r@) == plan_passes_spec(a_files@, a_grans@),
{
    let mut cur = clone_strings(a_files);
    let mut out: Vec<RotatePass> = Vec::new();
    let mut k: usize = 0;
    proof {
        assert(a_grans@.skip(0) =~= a_grans@);
        assert(pass_views(out@) + plan_passes_spec(cur@, a_grans@) =~= plan_passes_spec(
            a_files@,
            a_grans@,
        ));
    }
    while k < a_grans.len()
        invariant
            k <= a_grans@.len(),
            pass_views(out@) + plan_passes_spec(cur@, a_grans@.skip(k as int)) == plan_passes_spec(
                a_files@,
                a_grans@,
            ),
        decreases a_grans@.len() - k,
    {
        let ghost prev_out = out@;
        let ghost prev_cur = cur@;
        let g = a_grans[k];
        let split = pass_split(&cur, g);
        out.push(RotatePass { granularity: g, victims: split.0 });
        cur = split.1;
        proof {
            assert(a_grans@.skip(k as int).drop_first() =~= a_grans@.skip(k + 1));
            assert(a_grans@.skip(k as int)[0] == a_grans@[k as int]);
            assert(plan_passes_spec(prev_cur, a_grans@.skip(k as int)) == seq![
                (g, pass_victims_spec(prev_cur, g)),
            ] + plan_passes_spec(cur@, a_grans@.skip(k + 1)));
            assert(pass_views(out@) =~= pass_views(prev_out).push(
                (g, pass_victims_spec(prev_cur, g)),
            ));
            assert(pass_views(out@) + plan_passes_spec(cur@, a_grans@.skip(k + 1)) =~= pass_views(
                prev_out,
            ) + plan_passes_spec(prev_cur, a_grans@.skip(k as int)));
        }
        k = k + 1;
    }
    proof {
        assert(a_grans@.skip(a_grans@.len() as int) =~= Seq::<Granularity>::empty());
        assert(pass_views(out@) + plan_passes_spec(cur@, Seq::<Granularity>::empty()) =~=
            pass_views(out@));
    }
    out
}

/// The rotation engine bound to one task: the strategy its
/// configuration names, and the task itself.
pub struct Rotate<'a> {
    pub strategy: Strategy,
    pub task: &'a Task,
}

impl<'a> Rotate<'a> {
    /// Bind the engine to a task, reading its strategy string once:
    /// `delete`, `move`, or unsupported.
    pub fn new(a_task: &'a Task) -> (r: Rotate<'a>)
        ensures
            r.strategy == strategy_of(a_task.task.rotate_strategy@),
            r.task == a_task,
    {
        let strategy = if str_eq(a_task.task.rotate_strategy.as_str(), "delete") {
            Strategy::Delete
        } else if str_eq(a_task.task.rotate_strategy.as_str(), "move") {
            Strategy::Move
        } else {
            Strategy::Unsupported
        };
        Rotate { strategy, task: a_task }
    }

    /// Plan the whole rotation call over a directory listing: refused
    /// outright for an unsupported strategy, else one pass per enabled
    /// granularity in cascade order, each pass's victims in listing
    /// order. The caller applies the strategy to every planned victim
    /// in order and stops at the first failure; files already handled
    /// stay handled.
    pub fn run(&self, a_files: &Vec<String>) -> (r: Result<RotatePlan, RotateError>)
        ensures
            r is Err <==> self.strategy == Strategy::Unsupported,
            match r {
                Ok(plan) => {
                    &&& plan.strategy == self.strategy
                    &&& pass_views(plan.passes@) == plan_passes_spec(
                        a_files@,
                        enabled_grans(self.task.task.rotate),
                    )
                },
                Err(e) => e == RotateError::UnknownStrategy,
            },
    {
        match self.strategy {
            Strategy::Unsupported => {
                return Err(RotateError::UnknownStrategy);
            },
            _ => {},
        }
        let grans = enabled_list(&self.task.task.rotate);
        let passes = run_passes(a_files, &grans);
        Ok(RotatePlan { strategy: self.strategy, passes })
    }

    /// The hourly pass alone: its victims against this listing, or
    /// nothing when hourly rotation is off.
    pub fn run_hourly(&self, a_files: &Vec<String>) -> (r: Vec<String>)
        ensures
            self.task.task.rotate.hourly ==> r@ == pass_victims_spec(
                a_files@,
                Granularity::Hourly,
            ),
            !self.task.task.rotate.hourly ==> r@.len() == 0,
    {
        if !self.task.task.rotate.hourly {
            return Vec::new();
        }
        let split = pass_split(a_files, Granularity::Hourly);
        split.0
    }

    /// The daily pass alone: its victims against this listing, or
    /// nothing when daily rotation is off.
    pub fn run_daily(&self, a_files: &Vec<String>) -> (r: Vec<String>)
        ensures
            self.task.task.rotate.daily ==> r@ == pass_victims_spec(a_files@, Granularity::Daily),
            !self.task.task.rotate.daily ==> r@.len() == 0,
    {
        if !self.task.task.rotate.daily {
            return Vec::new();
        }
        let split = pass_split(a_files, Granularity::Daily);
        split.0
    }

    /// The monthly pass alone: its victims against this listing, or
    /// nothing when monthly rotation is off.
    pub fn run_monthly(&self, a_files: &Vec<String>) -> (r: Vec<String>)
        ensures
            self.task.task.rotate.monthly ==> r@ == pass_victims_spec(
                a_files@,
                Granularity::Monthly,
            ),
            !self.task.task.rotate.monthly ==> r@.len() == 0,
    {
        if !self.task.task.rotate.monthly {
            return Vec::new();
        }
        let split = pass_split(a_files, Granularity::Monthly);
        split.0
    }

    /// The yearly pass alone: its victims against this listing, or
    /// nothing when yearly rotation is off.
    pub fn run_yearly(&self, a_files: &Vec<String>) -> (r: Vec<String>)
        ensures
            self.task.task.rotate.yearly ==> r@ == pass_victims_spec(
                a_files@,
                Granularity::Yearly,
            ),
            !self.task.task.rotate.yearly ==> r@.len() == 0,
    {
        if !self.task.task.rotate.yearly {
            return Vec::new();
        }
        let split = pass_split(a_files, Granularity::Yearly);
        split.0
    }

    /// The `moved` subdirectory of the task directory, which the move
    /// strategy fills; created by the caller on first use.
    pub fn moved_dir(&self) -> (r: String)
        ensures
            r@ == self.task.task.path@ + "/"@ + "moved"@,
    {
        let mut r = String::from_str(self.task.task.path.as_str());
        r.append("/");
        r.append(DIRECTORY_MOVE);
        r
    }

    /// Where a victim lies before rotation: directly under the task
    /// directory.
    pub fn source_path(&self, a_file: &str) -> (r: String)
        ensures
            r@ == self.task.task.path@ + "/"@ + a_file@,
    {
        let mut r = String::from_str(self.task.task.path.as_str());
        r.append("/");
        r.append(a_file);
        r
    }

    /// Where a victim lands under the move strategy: the `moved`
    /// subdirectory, keeping its file name.
    pub fn moved_target(&self, a_file: &str) -> (r: String)
        ensures
            r@ == self.task.task.path@ + "/"@ + "moved"@ + "/"@ + a_file@,
    {
        let mut r = String::from_str(self.task.task.path.as_str());
        r.append("/");
        r.append(DIRECTORY_MOVE);
        r.append("/");
        r.append(a_file);
        r
    }
}

/// What a filter keeps was already there and satisfies the predicate.
proof fn lemma_filter_subset<A>(s: Seq<A>, pred: spec_fn(A) -> bool)
    ensures
        forall|x: A| #[trigger] s.filter(pred).contains(x) ==> s.contains(x) && pred(x),
    decreases s.len(),
{
    reveal(Seq::filter);
    if s.len() > 0 {
        lemma_filter_subset(s.drop_last(), pred);
        assert forall|x: A| #[trigger] s.filter(pred).contains(x) implies s.contains(x) && pred(
            x,
        ) by {
            let sub = s.drop_last().filter(pred);
            if pred(s.last()) && x == s.last() {
                assert(s[s.len() - 1] == x);
            } else {
                assert(sub.contains(x));
                let j = choose|j: int| 0 <= j < s.drop_last().len() && s.drop_last()[j] == x;
                assert(s[j] == x);
            }
        };
    }
}

/// Pass `i` of a plan works on the listing that the passes before it
/// left behind.
proof fn lemma_plan_pass_shape(files: Seq<String>, gs: Seq<Granularity>, i: int)
    requires
        0 <= i < gs.len(),
    ensures
        plan_passes_spec(files, gs).len() == gs.len(),
        plan_passes_spec(files, gs)[i] == (
            gs[i],
            pass_victims_spec(listing_before_pass(files, gs, i), gs[i]),
        ),
    decreases i,
{
    lemma_plan_len(files, gs);
    if i > 0 {
        lemma_plan_pass_shape(pass_survivors_spec(files, gs[0]), gs.drop_first(), i - 1);
        lemma_listing_shift(files, gs, i);
        lemma_plan_len(pass_survivors_spec(files, gs[0]), gs.drop_first());
    }
}

proof fn lemma_plan_len(files: Seq<String>, gs: Seq<Granularity>)
    ensures
        plan_passes_spec(files, gs).len() == gs.len(),
    decreases gs.len(),
{
    if gs.len() > 0 {
        lemma_plan_len(pass_survivors_spec(files, gs[0]), gs.drop_first());
    }
}

/// Working the cascade one pass in corresponds to dropping the first
/// granularity.
proof fn lemma_listing_shift(files: Seq<String>, gs: Seq<Granularity>, i: int)
    requires
        1 <= i <= gs.len(),
    ensures
        listing_before_pass(files, gs, i) == listing_before_pass(
            pass_survivors_spec(files, gs[0]),
            gs.drop_first(),
            i - 1,
        ),
    decreases i,
{
    if i == 1 {
        assert(listing_before_pass(files, gs, 1) == pass_survivors_spec(
            listing_before_pass(files, gs, 0),
            gs[0],
        ));
        assert(listing_before_pass(pass_survivors_spec(files, gs[0]), gs.drop_first(), 0)
            == pass_survivors_spec(files, gs[0]));
    } else {
        lemma_listing_shift(files, gs, i - 1);
        assert(gs.drop_first()[i - 2] == gs[i - 1]);
        assert(listing_before_pass(files, gs, i) == pass_survivors_spec(
            listing_before_pass(files, gs, i - 1),
            gs[i - 1],
        ));
        assert(listing_before_pass(pass_survivors_spec(files, gs[0]), gs.drop_first(), i - 1)
            == pass_survivors_spec(
            listing_before_pass(pass_survivors_spec(files, gs[0]), gs.drop_first(), i - 2),
            gs.drop_first()[i - 2],
        ));
    }
}

/// The latest bucket — the one whose key no other matching file
/// exceeds — is the still-open current period: no file of it is ever a
/// victim.
pub proof fn lemma_latest_bucket_untouched(files: Seq<Seq<char>>, f: Seq<char>, g: Granularity)
    requires
        matches_gran(f, g),
        forall|j: int|
            0 <= j < files.len() && matches_gran(#[trigger] files[j], g) ==> !crate::text::lex_lt(
                key_of(f, g),
                key_of(files[j], g),
            ),
    ensures
        !is_victim(files, f, g),
{
    if is_victim(files, f, g) {
        let j = choose|j: int|
            0 <= j < files.len() && matches_gran(#[trigger] files[j], g) && crate::text::lex_lt(
                key_of(f, g),
                key_of(files[j], g),
            );
        assert(!crate::text::lex_lt(key_of(f, g), key_of(files[j], g)));
    }
}

/// The latest member of the bucket named `key` among the first `n`
/// files: every member up to there is it, or lies strictly below it.
proof fn lemma_bucket_max(files: Seq<Seq<char>>, g: Granularity, key: Seq<char>, n: int) -> (m: Seq<
    char,
>)
    requires
        0 < n <= files.len(),
        exists|k: int|
            0 <= k < n && matches_gran(#[trigger] files[k], g) && key_of(files[k], g) == key,
    ensures
        exists|k: int| 0 <= k < n && #[trigger] files[k] == m,
        matches_gran(m, g),
        key_of(m, g) == key,
        forall|k: int|
            0 <= k < n && matches_gran(#[trigger] files[k], g) && key_of(files[k], g) == key ==> (
            files[k] == m || crate::text::lex_lt(files[k], m)),
    decreases n,
{
    let last = files[n - 1];
    let last_is_member = matches_gran(last, g) && key_of(last, g) == key;
    let rest_has_member = exists|k: int|
        0 <= k < n - 1 && matches_gran(#[trigger] files[k], g) && key_of(files[k], g) == key;
    if !rest_has_member {
        assert(last_is_member);
        last
    } else {
        let prev = lemma_bucket_max(files, g, key, n - 1);
        if last_is_member && prev != last && !crate::text::lex_lt(last, prev) {
            crate::text::lemma_lex_connected(prev, last);
            assert(crate::text::lex_lt(prev, last));
            assert forall|k: int|
                0 <= k < n && matches_gran(#[trigger] files[k], g) && key_of(files[k], g)
                    == key implies (files[k] == last || crate::text::lex_lt(files[k], last)) by {
                if k < n - 1 && files[k] != last {
                    if files[k] != prev {
                        crate::text::lemma_lex_transitive(files[k], prev, last);
                    }
                }
            };
            last
        } else {
            if last_is_member && prev != last {
                crate::text::lemma_lex_connected(prev, last);
            }
            prev
        }
    }
}

/// In a completed bucket — one that a later bucket outranks — exactly
/// one member survives the pass: its latest member; every other member
/// is a victim. Together with the untouched latest bucket this is the
/// whole pruning rule.
pub proof fn lemma_one_survivor_per_bucket(files: Seq<Seq<char>>, g: Granularity, i: int) -> (m:
    Seq<char>)
    requires
        0 <= i < files.len(),
        matches_gran(files[i], g),
        exists|j: int|
            0 <= j < files.len() && matches_gran(#[trigger] files[j], g) && crate::text::lex_lt(
                key_of(files[i], g),
                key_of(files[j], g),
            ),
    ensures
        exists|k: int| 0 <= k < files.len() && #[trigger] files[k] == m,
        matches_gran(m, g),
        key_of(m, g) == key_of(files[i], g),
        !is_victim(files, m, g),
        forall|k: int|
            0 <= k < files.len() && matches_gran(#[trigger] files[k], g) && key_of(files[k], g)
                == key_of(files[i], g) && files[k] != m ==> is_victim(files, files[k], g),
{
    let key = key_of(files[i], g);
    let m = lemma_bucket_max(files, g, key, files.len() as int);
    assert(!is_victim(files, m, g)) by {
        if is_victim(files, m, g) {
            let h = choose|j: int|
                0 <= j < files.len() && matches_gran(#[trigger] files[j], g) && key_of(
                    files[j],
                    g,
                ) == key_of(m, g) && crate::text::lex_lt(m, files[j]);
            if files[h] != m {
                crate::text::lemma_lex_transitive(m, files[h], m);
            }
            crate::text::lemma_lex_irreflexive(m);
        }
    };
    assert forall|k: int|
        0 <= k < files.len() && matches_gran(#[trigger] files[k], g) && key_of(files[k], g) == key
            && files[k] != m implies is_victim(files, files[k], g) by {
        assert(crate::text::lex_lt(files[k], m));
        let w = choose|k2: int| 0 <= k2 < files.len() && #[trigger] files[k2] == m;
        assert(0 <= w < files.len() && matches_gran(files[w], g) && key_of(files[w], g) == key_of(
            files[k],
            g,
        ) && crate::text::lex_lt(files[k], files[w]));
    };
    m
}

/// A directory listing holds each name once, and a pass's victim list
/// keeps that: no file is planned for removal twice within one pass.
pub proof fn lemma_pass_victims_distinct(files: Seq<String>, g: Granularity)
    requires
        files.no_duplicates(),
    ensures
        pass_victims_spec(files, g).no_duplicates(),
    decreases files.len(),
{
    reveal(Seq::filter);
    let pred = |s: String| is_victim(str_views(files), s@, g);
    lemma_filter_distinct(files, pred);
}

/// Filtering a duplicate-free sequence leaves it duplicate-free.
proof fn lemma_filter_distinct<A>(s: Seq<A>, pred: spec_fn(A) -> bool)
    requires
        s.no_duplicates(),
    ensures
        s.filter(pred).no_duplicates(),
    decreases s.len(),
{
    reveal(Seq::filter);
    if s.len() > 0 {
        assert(s.drop_last().no_duplicates());
        lemma_filter_distinct(s.drop_last(), pred);
        lemma_filter_subset(s.drop_last(), pred);
        if pred(s.last()) {
            let sub = s.drop_last().filter(pred);
            assert(!s.drop_last().contains(s.last())) by {
                if s.drop_last().contains(s.last()) {
                    let j = choose|j: int|
                        0 <= j < s.drop_last().len() && s.drop_last()[j] == s.last();
                    assert(s[j] == s[s.len() - 1]);
                }
            };
            assert(!sub.contains(s.last()));
            let out = sub.push(s.last());
            assert forall|i: int, j: int| 0 <= i < j < out.len() implies out[i] != out[j] by {
                if j == out.len() - 1 {
                    assert(sub[i] != s.last());
                }
            };
        }
    }
}

/// Within one rotation call, no file is handled twice: what an earlier
/// pass removed is invisible to every later pass, so the victim lists
/// of two distinct passes share no file.
pub proof fn lemma_no_double_rotation(
    files: Seq<String>,
    gs: Seq<Granularity>,
    k: int,
    l: int,
    f: String,
)
    requires
        0 <= k < l < gs.len(),
        plan_passes_spec(files, gs)[k].1.contains(f),
    ensures
        !plan_passes_spec(files, gs)[l].1.contains(f),
    decreases l - k,
{
    lemma_plan_pass_shape(files, gs, k);
    lemma_plan_pass_shape(files, gs, l);
    let lk = listing_before_pass(files, gs, k);
    lemma_filter_subset(lk, |s: String| is_victim(str_views(lk), s@, gs[k]));
    assert(is_victim(str_views(lk), f@, gs[k]));
    lemma_victim_gone(files, gs, k, l, f);
}

/// A file removed by pass `k` is no longer in the listing any later
/// pass works on.
proof fn lemma_victim_gone(files: Seq<String>, gs: Seq<Granularity>, k: int, l: int, f: String)
    requires
        0 <= k < l < gs.len(),
        is_victim(str_views(listing_before_pass(files, gs, k)), f@, gs[k]),
    ensures
        !listing_before_pass(files, gs, l).contains(f),
        !plan_passes_spec(files, gs)[l].1.contains(f),
    decreases l - k,
{
    let lk = listing_before_pass(files, gs, k);
    let pred = |s: String| !is_victim(str_views(lk), s@, gs[k]);
    lemma_filter_subset(lk, pred);
    assert(!listing_before_pass(files, gs, k + 1).contains(f)) by {
        if listing_before_pass(files, gs, k + 1).contains(f) {
            assert(pred(f));
        }
    };
    lemma_listing_monotone(files, gs, k + 1, l, f);
    lemma_plan_pass_shape(files, gs, l);
    let ll = listing_before_pass(files, gs, l);
    lemma_filter_subset(ll, |s: String| is_victim(str_views(ll), s@, gs[l]));
}

/// A file absent from the listing of one pass stays absent from every
/// later pass's listing.
proof fn lemma_listing_monotone(
    files: Seq<String>,
    gs: Seq<Granularity>,
    k: int,
    l: int,
    f: String,
)
    requires
        0 <= k <= l <= gs.len(),
        !listing_before_pass(files, gs, k).contains(f),
    ensures
        !listing_before_pass(files, gs, l).contains(f),
    decreases l - k,
{
    if k < l {
        let lk = listing_before_pass(files, gs, k);
        let pred = |s: String| !is_victim(str_views(lk), s@, gs[k]);
        lemma_filter_subset(lk, pred);
        assert(!listing_before_pass(files, gs, k + 1).contains(f));
        lemma_listing_monotone(files, gs, k + 1, l, f);
    }
}

} // verus!
