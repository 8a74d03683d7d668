//! Retention schemas: the `<count><unit>:<count><unit>` notation, its
//! parser, the ordering and divisibility rules a schema must satisfy,
//! and the on-disk sizes that a schema dictates.

use vstd::prelude::*;
use vstd::seq_lib::group_to_multiset_ensures;
use vstd::multiset::group_multiset_axioms;

use crate::error::WhisperError;

verus! {

broadcast use vstd::std_specs::vec::group_vec_axioms, group_to_multiset_ensures,
    group_multiset_axioms;

/// One archive of a schema: a sample every `precision` seconds, kept for
/// `retention` seconds.
#[derive(Clone, Copy, PartialEq, Eq, Structural, Debug)]
pub struct RetentionPolicy {
    pub precision: u64,
    pub retention: u64,
}

impl RetentionPolicy {
    /// A policy the format can hold: 32-bit fields, a whole number of
    /// slots, and at least one slot.
    pub open spec fn wf(self) -> bool {
        &&& 1 <= self.precision <= 0xFFFF_FFFFu64
        &&& self.retention <= 0xFFFF_FFFFu64
        &&& self.retention % self.precision == 0
        &&& self.retention / self.precision >= 1
    }

    pub open spec fn spec_points(self) -> int {
        self.retention as int / self.precision as int
    }

    /// Number of slots this policy takes.
    pub fn points(&self) -> (r: u64)
        requires
            self.precision >= 1,
        ensures
            r == self.spec_points(),
    {
        self.retention / self.precision
    }

    /// Bytes of this policy's data region.
    pub fn size_on_disk(&self) -> (r: u64)
        requires
            self.wf(),
        ensures
            r == 12 * self.spec_points(),
    {
        proof {
            vstd::arithmetic::div_mod::lemma_div_is_ordered(self.retention as int,
                0xFFFF_FFFFi64 as int, self.precision as int);
            vstd::arithmetic::div_mod::lemma_div_nonincreasing(self.retention as int,
                self.precision as int);
        }
        12 * self.points()
    }
}

pub open spec fn spec_unit_seconds(c: char) -> Option<u64> {
    if c == 's' {
        Some(1u64)
    } else if c == 'm' {
        Some(60u64)
    } else if c == 'h' {
        Some(3600u64)
    } else if c == 'd' {
        Some(86400u64)
    } else if c == 'w' {
        Some(604800u64)
    } else if c == 'y' {
        Some(31536000u64)
    } else {
        None
    }
}

pub open spec fn spec_is_digit(c: char) -> bool {
    48 <= c as u32 <= 57
}

/// Value of an all-digit string, most significant first.
pub open spec fn spec_digits_value(s: Seq<char>) -> int
    decreases s.len(),
{
    if s.len() == 0 {
        0
    } else {
        spec_digits_value(s.drop_last()) * 10 + (s.last() as u32 - 48)
    }
}

pub open spec fn spec_all_digits(s: Seq<char>) -> bool {
    forall|i: int| 0 <= i < s.len() ==> spec_is_digit(#[trigger] s[i])
}

/// A duration is one or more digits followed by one unit letter.
pub open spec fn spec_duration_valid(s: Seq<char>) -> bool {
    &&& s.len() >= 2
    &&& spec_all_digits(s.take(s.len() - 1))
    &&& spec_unit_seconds(s.last()) is Some
}

/// Seconds of a duration: its digits times its unit.
pub open spec fn spec_duration_value(s: Seq<char>) -> int {
    spec_digits_value(s.take(s.len() - 1)) * spec_unit_seconds(s.last()).unwrap()
}

/// First colon at or after `i`, or the length when there is none.
pub open spec fn spec_find_colon(s: Seq<char>, i: int) -> int
    decreases s.len() - i when 0 <= i <= s.len()
{
    if i >= s.len() {
        s.len() as int
    } else if s[i] == ':' {
        i
    } else {
        spec_find_colon(s, i + 1)
    }
}

/// A valid retention specification: `<duration>:<duration>`, each value
/// fitting the format's 32-bit fields, with a non-zero precision and a
/// retention that is a non-zero whole multiple of the precision.
pub open spec fn spec_spec_valid(s: Seq<char>) -> bool {
    let ci = spec_find_colon(s, 0);
    let p = s.take(ci);
    let r = s.skip(ci + 1);
    &&& ci < s.len()
    &&& spec_duration_valid(p)
    &&& spec_duration_valid(r)
    &&& 1 <= spec_duration_value(p) <= 0xFFFF_FFFF
    &&& spec_duration_value(r) <= 0xFFFF_FFFF
    &&& spec_duration_value(r) % spec_duration_value(p) == 0
    &&& spec_duration_value(r) / spec_duration_value(p) >= 1
}

pub open spec fn spec_policy_of(s: Seq<char>) -> RetentionPolicy {
    let ci = spec_find_colon(s, 0);
    RetentionPolicy {
        precision: spec_duration_value(s.take(ci)) as u64,
        retention: spec_duration_value(s.skip(ci + 1)) as u64,
    }
}

/// A digit string's value only grows as digits are appended.
proof fn lemma_digits_value_prefix_le(s: Seq<char>, k: int)
    requires
        0 <= k <= s.len(),
        spec_all_digits(s),
    ensures
        spec_digits_value(s.take(k)) <= spec_digits_value(s),
        spec_digits_value(s) >= 0,
    decreases s.len(),
{
    if s.len() == 0 {
        assert(s.take(k) =~= s);
    } else {
        lemma_digits_value_prefix_le(s.drop_last(), if k <= s.len() - 1 {
            k
        } else {
            (s.len() - 1) as int
        });
        assert(spec_is_digit(s[s.len() - 1]));
        assert(spec_digits_value(s.drop_last()) * 10 >= spec_digits_value(s.drop_last()))
            by (nonlinear_arith)
            requires
                spec_digits_value(s.drop_last()) >= 0,
        {
        }
        if k <= s.len() - 1 {
            assert(s.drop_last().take(k) =~= s.take(k));
        } else {
            assert(s.take(k) =~= s);
        }
    }
}

/// Parse the duration in `s[start..end]`.
fn parse_duration(s: &str, start: usize, end: usize) -> (r: Result<u64, WhisperError>)
    requires
        start <= end <= s@.len(),
    ensures
        match r {
            Ok(v) => spec_duration_valid(s@.subrange(start as int, end as int)) && v
                == spec_duration_value(s@.subrange(start as int, end as int)) && v
                <= 0xFFFF_FFFFu64,
            Err(e) => e == WhisperError::SchemaInvalid && (!spec_duration_valid(s@.subrange(
                start as int,
                end as int,
            )) || spec_duration_value(s@.subrange(start as int, end as int)) > 0xFFFF_FFFF),
        },
{
    let ghost sub = s@.subrange(start as int, end as int);
    if end - start < 2 {
        return Err(WhisperError::SchemaInvalid);
    }
    let mut acc: u64 = 0;
    let mut i: usize = start;
    while i < end - 1
        invariant
            start <= i <= end - 1,
            2 <= end - start,
            end <= s@.len(),
            sub == s@.subrange(start as int, end as int),
            acc <= 0xFFFF_FFFFu64,
            spec_all_digits(sub.take(i - start)),
            acc == spec_digits_value(sub.take(i - start)),
        decreases end - 1 - i,
    {
        let c = s.get_char(i);
        let cv: u32 = c as u32;
        proof {
            assert(sub[i - start] == s@[i as int]);
            assert(sub.take(i - start + 1).drop_last() =~= sub.take(i - start));
        }
        if cv < 48 || cv > 57 {
            proof {
                assert(!spec_is_digit(sub[i - start]));
                assert(sub.take(sub.len() - 1)[i - start] == sub[i - start]);
                assert(!spec_duration_valid(sub));
            }
            return Err(WhisperError::SchemaInvalid);
        }
        let d: u64 = (cv - 48) as u64;
        let next: u64 = acc * 10 + d;
        if next > 0xFFFF_FFFF {
            // every longer prefix is at least this large, so the value
            // cannot fit the format
            proof {
                let whole = sub.take(sub.len() - 1);
                if spec_duration_valid(sub) {
                    assert(spec_all_digits(whole));
                    lemma_digits_value_prefix_le(whole, i - start + 1);
                    assert(whole.take(i - start + 1) =~= sub.take(i - start + 1));
                    assert(spec_duration_value(sub) == spec_digits_value(whole)
                        * spec_unit_seconds(sub.last()).unwrap());
                    assert(spec_unit_seconds(sub.last()).unwrap() >= 1);
                    assert(spec_digits_value(whole) * spec_unit_seconds(sub.last()).unwrap()
                        >= spec_digits_value(whole)) by (nonlinear_arith)
                        requires
                            spec_digits_value(whole) >= 0,
                            spec_unit_seconds(sub.last()).unwrap() >= 1,
                    {
                    }
                }
            }
            return Err(WhisperError::SchemaInvalid);
        }
        acc = next;
        i = i + 1;
    }
    let unit_char = s.get_char(end - 1);
    let multiplier: u64 = if unit_char == 's' {
        1
    } else if unit_char == 'm' {
        60
    } else if unit_char == 'h' {
        3600
    } else if unit_char == 'd' {
        86400
    } else if unit_char == 'w' {
        604800
    } else if unit_char == 'y' {
        31536000
    } else {
        proof {
            assert(sub.last() == s@[end - 1]);
        }
        return Err(WhisperError::SchemaInvalid);
    };
    proof {
        assert(sub.last() == s@[end - 1]);
        assert(sub.take(sub.len() - 1) =~= sub.take(i - start));
        assert(spec_duration_valid(sub));
    }
    proof {
        assert((acc as int) * (multiplier as int) <= 0xFFFF_FFFFi64 * 31536000i64)
            by (nonlinear_arith)
            requires
                0 <= acc <= 0xFFFF_FFFFu64,
                0 <= multiplier <= 31536000u64,
        {
        }
    }
    let value: u64 = acc * multiplier;
    if value > 0xFFFF_FFFF {
        return Err(WhisperError::SchemaInvalid);
    }
    Ok(value)
}

/// Parse one `<precision>:<retention>` specification.
pub fn parse_spec(spec_str: &str) -> (r: Result<RetentionPolicy, WhisperError>)
    ensures
        match r {
            Ok(rp) => spec_spec_valid(spec_str@) && rp == spec_policy_of(spec_str@) && rp.wf(),
            Err(e) => e == WhisperError::SchemaInvalid && !spec_spec_valid(spec_str@),
        },
{
    let n: usize = spec_str.unicode_len();
    let mut ci: usize = 0;
    let mut found: bool = false;
    while !found && ci < n
        invariant
            0 <= ci <= n,
            n == spec_str@.len(),
            found ==> spec_find_colon(spec_str@, 0) == ci && ci < n,
            !found ==> spec_find_colon(spec_str@, 0) == spec_find_colon(spec_str@, ci as int),
        decreases n - ci, (if found { 0int } else { 1int }),
    {
        if spec_str.get_char(ci) == ':' {
            found = true;
        } else {
            ci = ci + 1;
        }
    }
    if !found {
        proof {
            assert(spec_find_colon(spec_str@, 0) == n);
        }
        return Err(WhisperError::SchemaInvalid);
    }
    let precision = match parse_duration(spec_str, 0, ci) {
        Ok(v) => v,
        Err(e) => {
            proof {
                assert(spec_str@.subrange(0, ci as int) =~= spec_str@.take(ci as int));
            }
            return Err(e);
        },
    };
    let retention = match parse_duration(spec_str, ci + 1, n) {
        Ok(v) => v,
        Err(e) => {
            proof {
                assert(spec_str@.subrange(ci + 1, n as int) =~= spec_str@.skip(ci + 1));
            }
            return Err(e);
        },
    };
    proof {
        assert(spec_str@.subrange(0, ci as int) =~= spec_str@.take(ci as int));
        assert(spec_str@.subrange(ci + 1, n as int) =~= spec_str@.skip(ci + 1));
    }
    if precision < 1 {
        return Err(WhisperError::SchemaInvalid);
    }
    if retention % precision != 0 {
        return Err(WhisperError::SchemaInvalid);
    }
    if retention / precision < 1 {
        return Err(WhisperError::SchemaInvalid);
    }
    Ok(RetentionPolicy { precision, retention })
}

/// An ordered list of retention policies, finest first.
#[derive(Clone, Debug)]
pub struct Schema {
    pub retention_policies: Vec<RetentionPolicy>,
}

pub open spec fn spec_sorted_by_precision(ps: Seq<RetentionPolicy>) -> bool {
    forall|i: int, j: int|
        0 <= i < j < ps.len() ==> #[trigger] ps[i].precision <= #[trigger] ps[j].precision
}

/// Slots taken by the first `i` policies together.
pub open spec fn spec_prefix_points(ps: Seq<RetentionPolicy>, i: int) -> int
    decreases i,
{
    if i <= 0 {
        0
    } else {
        spec_prefix_points(ps, i - 1) + ps[i - 1].spec_points()
    }
}

impl Schema {
    /// The rules of a usable schema: at least one policy, each policy
    /// well formed, strictly increasing precisions, each coarser
    /// precision a whole multiple of the finer one, each archive wide
    /// enough to fill one slot of the next, and a total size whose
    /// offsets fit the format's 32-bit fields.
    pub open spec fn wf(self) -> bool {
        let ps = self.retention_policies@;
        &&& ps.len() >= 1
        &&& (forall|i: int| 0 <= i < ps.len() ==> (#[trigger] ps[i]).wf())
        &&& (forall|i: int|
            0 <= i < ps.len() - 1 ==> (#[trigger] ps[i]).precision < ps[i + 1].precision)
        &&& (forall|i: int|
            0 <= i < ps.len() - 1 ==> (#[trigger] ps[i + 1]).precision % ps[i].precision == 0)
        &&& (forall|i: int|
            0 <= i < ps.len() - 1 ==> (#[trigger] ps[i + 1]).precision / ps[i].precision
                <= ps[i].spec_points())
        &&& 16 + 12 * (ps.len() as int) + 12 * spec_prefix_points(ps, ps.len() as int)
            <= 0xFFFF_FFFF
    }

    pub open spec fn spec_size_on_disk(self) -> int {
        let ps = self.retention_policies@;
        16 + 12 * (ps.len() as int) + 12 * spec_prefix_points(ps, ps.len() as int)
    }

    pub open spec fn spec_max_retention(self) -> int {
        let ps = self.retention_policies@;
        ps[ps.len() - 1].retention as int
    }
}

/// Sort policies by ascending precision; the result holds exactly the
/// given policies.
fn sort_policies(input: Vec<RetentionPolicy>) -> (out: Vec<RetentionPolicy>)
    ensures
        out@.len() == input@.len(),
        out@.to_multiset() == input@.to_multiset(),
        spec_sorted_by_precision(out@),
{
    let ghost orig = input@;
    let mut v = input;
    let mut out: Vec<RetentionPolicy> = Vec::new();
    proof {
        assert(out@.to_multiset().add(v@.to_multiset()) =~= orig.to_multiset());
    }
    while v.len() > 0
        invariant
            out@.len() + v@.len() == orig.len(),
            out@.to_multiset().add(v@.to_multiset()) == orig.to_multiset(),
            spec_sorted_by_precision(out@),
            forall|a: int, b: int|
                0 <= a < out@.len() && 0 <= b < v@.len() ==> (#[trigger] out@[a]).precision <= (
                #[trigger] v@[b]).precision,
        decreases v.len(),
    {
        let mut min_idx: usize = 0;
        let mut k: usize = 1;
        while k < v.len()
            invariant
                v@.len() > 0,
                0 <= min_idx < v@.len(),
                1 <= k <= v@.len(),
                forall|j: int| 0 <= j < k ==> v@[min_idx as int].precision <= (#[trigger] v@[j]).precision,
            decreases v@.len() - k,
        {
            if v[k].precision < v[min_idx].precision {
                min_idx = k;
            }
            k = k + 1;
        }
        let ghost v_before = v@;
        let ghost out_before = out@;
        let m = v.remove(min_idx);
        out.push(m);
        proof {
            assert(v_before.contains(m));
            assert(v_before.to_multiset().count(m) > 0);
            assert(out@.to_multiset() =~= out_before.to_multiset().insert(m));
            assert(v@.to_multiset() =~= v_before.to_multiset().remove(m));
            assert(out@.to_multiset().add(v@.to_multiset()) =~= orig.to_multiset());
            assert(out@ == out_before.push(m));
            assert forall|a: int, b: int|
                0 <= a < out@.len() && 0 <= b < v@.len() implies (#[trigger] out@[a]).precision
                <= (#[trigger] v@[b]).precision by {
                assert(v@[b] == v_before[if b < min_idx {
                    b
                } else {
                    b + 1
                }]);
            }
        }
    }
    out
}

impl Schema {
    /// Parse, sort and validate a list of retention specifications into
    /// a schema.
    pub fn new_from_retention_specs(specs: Vec<String>) -> (r: Result<Schema, WhisperError>)
        ensures
            match r {
                Ok(schema) => {
                    &&& schema.wf()
                    &&& spec_sorted_by_precision(schema.retention_policies@)
                    &&& schema.retention_policies@.len() == specs@.len()
                    &&& (forall|i: int|
                        0 <= i < specs@.len() ==> spec_spec_valid(#[trigger] specs@[i]@))
                    &&& schema.retention_policies@.to_multiset() == Seq::new(
                        specs@.len(),
                        |i: int| spec_policy_of(specs@[i]@),
                    ).to_multiset()
                },
                Err(e) => e == WhisperError::SchemaInvalid,
            },
    {
        let ghost parsed_spec = Seq::new(specs@.len(), |i: int| spec_policy_of(specs@[i]@));
        let mut parsed: Vec<RetentionPolicy> = Vec::new();
        let n: usize = specs.len();
        let mut i: usize = 0;
        while i < n
            invariant
                0 <= i <= n,
                n == specs@.len(),
                parsed_spec == Seq::new(specs@.len(), |k: int| spec_policy_of(specs@[k]@)),
                parsed@.len() == i,
                forall|k: int| 0 <= k < i ==> parsed@[k] == parsed_spec[k],
                forall|k: int| 0 <= k < i ==> spec_spec_valid(#[trigger] specs@[k]@),
                forall|k: int| 0 <= k < i ==> (#[trigger] parsed@[k]).wf(),
            decreases n - i,
        {
            let rp = match parse_spec(specs[i].as_str()) {
                Ok(rp) => rp,
                Err(e) => {
                    return Err(e);
                },
            };
            parsed.push(rp);
            i = i + 1;
        }
        proof {
            assert(parsed@ =~= parsed_spec);
        }
        let sorted = sort_policies(parsed);
        let schema = Schema { retention_policies: sorted };
        if !schema.validate() {
            return Err(WhisperError::SchemaInvalid);
        }
        Ok(schema)
    }

    /// Check the rules of a usable schema.
    #[verifier::rlimit(100)]
    pub fn validate(&self) -> (r: bool)
        ensures
            r == self.wf(),
    {
        let ps = &self.retention_policies;
        let n: usize = ps.len();
        if n == 0 {
            return false;
        }
        if n as u64 > 0x1555_5553 {
            // 16 + 12 * n alone would overrun the 32-bit offset space
            proof {
                if self.wf() {
                    lemma_prefix_points_mono(ps@, 0, ps@.len() as int);
                    assert(spec_prefix_points(ps@, 0) == 0);
                    assert(spec_prefix_points(ps@, ps@.len() as int) >= 0);
                    assert(16 + 12 * (ps@.len() as int) > 0xFFFF_FFFF);
                    assert(false);
                }
            }
            return false;
        }
        let mut acc: u64 = 0;
        let mut i: usize = 0;
        while i < n
            invariant
                0 <= i <= n,
                n == ps@.len(),
                n <= 0x1555_5553,
                ps@ == self.retention_policies@,
                forall|k: int| 0 <= k < i ==> (#[trigger] ps@[k]).wf(),
                acc == spec_prefix_points(ps@, i as int),
                acc <= 0xFFFF_FFFFu64,
                forall|k: int|
                    0 <= k < i && k + 1 < n ==> (#[trigger] ps@[k]).precision < ps@[k
                        + 1].precision,
                forall|k: int|
                    0 <= k < i && k + 1 < n ==> (#[trigger] ps@[k + 1]).precision
                        % ps@[k].precision == 0,
                forall|k: int|
                    0 <= k < i && k + 1 < n ==> (#[trigger] ps@[k + 1]).precision
                        / ps@[k].precision <= ps@[k].spec_points(),
            decreases n - i,
        {
            let rp = ps[i];
            if rp.precision < 1 || rp.precision > 0xFFFF_FFFF || rp.retention > 0xFFFF_FFFF {
                return false;
            }
            if rp.retention % rp.precision != 0 || rp.retention / rp.precision < 1 {
                return false;
            }
            proof {
                assert(ps@[i as int].wf());
            }
            if i + 1 < n {
                let next = ps[i + 1];
                if next.precision <= rp.precision {
                    return false;
                }
                if next.precision % rp.precision != 0 {
                    return false;
                }
                if next.precision / rp.precision > rp.points() {
                    return false;
                }
            }
            let pts = rp.points();
            proof {
                vstd::arithmetic::div_mod::lemma_div_nonincreasing(rp.retention as int,
                    rp.precision as int);
                vstd::arithmetic::div_mod::lemma_div_pos_is_pos(rp.retention as int,
                    rp.precision as int);
            }
            if acc > 0xFFFF_FFFF - pts {
                // the running slot total already overruns the format's
                // offset space, and it only grows from here
                proof {
                    if self.wf() {
                        lemma_prefix_points_mono(ps@, i as int + 1, ps@.len() as int);
                    }
                }
                return false;
            }
            acc = acc + pts;
            i = i + 1;
        }
        let total: u64 = acc;
        // 16 + 12 * n + 12 * total must fit the 32-bit offsets
        if 12 * total > 0xFFFF_FFFF - (16 + 12 * (n as u64)) {
            return false;
        }
        true
    }
}

/// Prefix slot totals only grow with more policies.
pub proof fn lemma_prefix_points_mono(ps: Seq<RetentionPolicy>, i: int, j: int)
    requires
        0 <= i <= j <= ps.len(),
        forall|k: int| 0 <= k < ps.len() ==> (#[trigger] ps[k]).wf(),
    ensures
        spec_prefix_points(ps, i) <= spec_prefix_points(ps, j),
        spec_prefix_points(ps, i) >= 0,
    decreases j - i, i,
{
    if i > 0 && i == j {
        lemma_prefix_points_mono(ps, i - 1, i - 1);
        vstd::arithmetic::div_mod::lemma_div_pos_is_pos(ps[i - 1].retention as int,
            ps[i - 1].precision as int);
    } else if i < j {
        lemma_prefix_points_mono(ps, i, j - 1);
        lemma_prefix_points_mono(ps, j - 1, j - 1);
        vstd::arithmetic::div_mod::lemma_div_pos_is_pos(ps[j - 1].retention as int,
            ps[j - 1].precision as int);
    }
}

} // verus!
