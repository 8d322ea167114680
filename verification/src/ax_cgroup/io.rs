//! The `io` controller: I/O weight, per-device limits and statistics.

use vstd::prelude::*;
use vstd::string::StringExecFns;

use crate::ax_cgroup::controller::{attr_read_outcome, AttrError, AttrInfo};
use crate::text::{
    append_u64, bytes_are, dec, find_byte, find_byte_in, is_max_word, is_utf8, join, lemma_find_byte_bound,
    lemma_join_push, max_word, parse_u32, parse_u64, read_text_at, spec_parse_u32, spec_parse_u64, split_on,
    split_words, str_is, trim, trim_bounds, words,
};

verus! {

/// Per-device I/O limits; 0 means unlimited.
#[derive(Debug, Clone, Copy)]
pub struct IoDeviceLimit {
    /// Device major:minor number.
    pub dev: (u32, u32),
    /// Read bytes per second.
    pub rbps: u64,
    /// Write bytes per second.
    pub wbps: u64,
    /// Read operations per second.
    pub riops: u64,
    /// Write operations per second.
    pub wiops: u64,
}

impl IoDeviceLimit {
    fn new(dev: (u32, u32)) -> (l: Self)
        ensures
            l == (IoDeviceLimit { dev, rbps: 0, wbps: 0, riops: 0, wiops: 0 }),
    {
        IoDeviceLimit { dev, rbps: 0, wbps: 0, riops: 0, wiops: 0 }
    }
}

/// Per-device I/O statistics.
#[derive(Debug, Clone, Copy)]
pub struct IoDeviceStat {
    /// Device major:minor number.
    pub dev: (u32, u32),
    /// Bytes read.
    pub rbytes: u64,
    /// Bytes written.
    pub wbytes: u64,
    /// Read operations.
    pub rios: u64,
    /// Write operations.
    pub wios: u64,
}

impl IoDeviceStat {
    fn new(dev: (u32, u32)) -> (s: Self)
        ensures
            s == (IoDeviceStat { dev, rbytes: 0, wbytes: 0, rios: 0, wios: 0 }),
    {
        IoDeviceStat { dev, rbytes: 0, wbytes: 0, rios: 0, wios: 0 }
    }
}

/// Per-cgroup I/O state.
#[derive(Debug, Clone, Copy)]
pub struct IoState {
    /// Default I/O weight, 1 to 10000.
    pub weight: u64,
}

/// A device number `major:minor`: exactly one colon between two numbers.
pub open spec fn dev_parsed(t: Seq<u8>) -> Option<(u32, u32)> {
    match find_byte(t, 58) {
        None => None,
        Some(k) => {
            let a = t.subrange(0, k);
            let b = t.subrange(k + 1, t.len() as int);
            if find_byte(b, 58) is Some {
                None
            } else {
                match (spec_parse_u32(a), spec_parse_u32(b)) {
                    (Some(x), Some(y)) => Some((x, y)),
                    _ => None,
                }
            }
        },
    }
}

/// One `key=value` setting of an `io.max` line applied to `lim`.
pub open spec fn apply_setting(lim: IoDeviceLimit, w: Seq<u8>) -> Option<IoDeviceLimit> {
    match find_byte(w, 61) {
        None => None,
        Some(k) => {
            let key = w.subrange(0, k);
            let val = w.subrange(k + 1, w.len() as int);
            let v = if val == max_word() {
                Some(0u64)
            } else {
                spec_parse_u64(val)
            };
            match v {
                None => None,
                Some(v) => if key == vstd::utf8::encode_utf8("rbps"@) {
                    Some(IoDeviceLimit { rbps: v, ..lim })
                } else if key == vstd::utf8::encode_utf8("wbps"@) {
                    Some(IoDeviceLimit { wbps: v, ..lim })
                } else if key == vstd::utf8::encode_utf8("riops"@) {
                    Some(IoDeviceLimit { riops: v, ..lim })
                } else if key == vstd::utf8::encode_utf8("wiops"@) {
                    Some(IoDeviceLimit { wiops: v, ..lim })
                } else {
                    None
                },
            }
        },
    }
}

/// The settings `ws` applied in order; a bad one spoils the line.
pub open spec fn apply_settings(lim: IoDeviceLimit, ws: Seq<Seq<u8>>) -> Option<IoDeviceLimit>
    decreases ws.len(),
{
    if ws.len() == 0 {
        Some(lim)
    } else {
        match apply_setting(lim, ws[0]) {
            Some(l) => apply_settings(l, ws.drop_first()),
            None => None,
        }
    }
}

/// The limits an `io.max` line sets: a device, then `key=value` settings,
/// each value `max` (0) or a number.
pub open spec fn line_limit(line: Seq<u8>) -> Option<IoDeviceLimit> {
    let ws = words(line);
    if ws.len() == 0 {
        None
    } else {
        match dev_parsed(ws[0]) {
            None => None,
            Some(d) => apply_settings(IoDeviceLimit { dev: d, rbps: 0, wbps: 0, riops: 0, wiops: 0 }, ws.drop_first()),
        }
    }
}

/// A line of an `io.max` write is acceptable: blank, `default`, or a limit.
pub open spec fn line_ok(line: Seq<u8>) -> bool {
    let l = trim(line);
    l.len() == 0 || l == vstd::utf8::encode_utf8("default"@) || line_limit(l) is Some
}

/// Every line of an `io.max` write is acceptable.
pub open spec fn io_max_ok(t: Seq<u8>) -> bool {
    forall|i: int| 0 <= i < split_on(t, 10).len() ==> line_ok(#[trigger] split_on(t, 10)[i])
}

/// The position of the first limit in `ls`, from `i` on, for device `d`.
pub open spec fn dev_index_from(ls: Seq<IoDeviceLimit>, d: (u32, u32), i: int) -> Option<int>
    decreases ls.len() - i,
{
    if i < 0 || i >= ls.len() {
        None
    } else if ls[i].dev == d {
        Some(i)
    } else {
        dev_index_from(ls, d, i + 1)
    }
}

/// `ls` with `l` in place of the limit for its device, or `l` appended when
/// the device has none yet.
pub open spec fn set_limit(ls: Seq<IoDeviceLimit>, l: IoDeviceLimit) -> Seq<IoDeviceLimit> {
    match dev_index_from(ls, l.dev, 0) {
        Some(k) => ls.update(k, l),
        None => ls.push(l),
    }
}

/// What one line of an `io.max` write does to the limits: a limit line sets
/// its device's limit; a blank line or `default` changes nothing.
pub open spec fn apply_max_line(ls: Seq<IoDeviceLimit>, line: Seq<u8>) -> Seq<IoDeviceLimit> {
    match line_limit(trim(line)) {
        Some(l) => set_limit(ls, l),
        None => ls,
    }
}

/// The limits after the lines of an `io.max` write, taken in order.
pub open spec fn limits_after(ls: Seq<IoDeviceLimit>, lines: Seq<Seq<u8>>) -> Seq<IoDeviceLimit>
    decreases lines.len(),
{
    if lines.len() == 0 {
        ls
    } else {
        limits_after(apply_max_line(ls, lines[0]), lines.drop_first())
    }
}

/// The settings of a limit that are set, as `key=value` texts in the order
/// rbps, wbps, riops, wiops.
pub open spec fn limit_parts(l: IoDeviceLimit) -> Seq<Seq<char>> {
    let p0 = if l.rbps > 0 { seq!["rbps="@ + dec(l.rbps as nat)] } else { Seq::empty() };
    let p1 = if l.wbps > 0 { p0.push("wbps="@ + dec(l.wbps as nat)) } else { p0 };
    let p2 = if l.riops > 0 { p1.push("riops="@ + dec(l.riops as nat)) } else { p1 };
    if l.wiops > 0 { p2.push("wiops="@ + dec(l.wiops as nat)) } else { p2 }
}

/// A limit as an `io.max` line: the device, then its settings or `max`.
pub open spec fn limit_line(l: IoDeviceLimit) -> Seq<char> {
    dec(l.dev.0 as nat) + ":"@ + dec(l.dev.1 as nat) + " "@ + (if limit_parts(l).len() == 0 {
        "max"@
    } else {
        join(limit_parts(l), " "@)
    })
}

/// Statistics as an `io.stat` line.
pub open spec fn stat_line(s: IoDeviceStat) -> Seq<char> {
    dec(s.dev.0 as nat) + ":"@ + dec(s.dev.1 as nat) + " rbytes="@ + dec(s.rbytes as nat) + " wbytes="@
        + dec(s.wbytes as nat) + " rios="@ + dec(s.rios as nat) + " wios="@ + dec(s.wios as nat)
}

impl IoState {
    /// Weight 100.
    pub fn new() -> (s: Self)
        ensures
            s.weight == 100,
    {
        IoState { weight: 100 }
    }

    /// Parses a device number `major:minor`.
    fn parse_dev(text: &[u8], lo: usize, hi: usize) -> (r: Result<(u32, u32), ()>)
        requires
            lo <= hi <= text@.len(),
        ensures
            match dev_parsed(text@.subrange(lo as int, hi as int)) {
                Some(d) => r == Ok::<(u32, u32), ()>(d),
                None => r is Err,
            },
    {
        let ghost t = text@.subrange(lo as int, hi as int);
        let k = match find_byte_in(text, lo, hi, 58) {
            Some(k) => k,
            None => {
                return Err(());
            },
        };
        proof {
            lemma_find_byte_bound(t, 58);
            assert(t.subrange(0, k - lo) =~= text@.subrange(lo as int, k as int));
            assert(t.subrange(k - lo + 1, t.len() as int) =~= text@.subrange(k + 1, hi as int));
        }
        if find_byte_in(text, k + 1, hi, 58).is_some() {
            return Err(());
        }
        let major = match parse_u32(text, lo, k) {
            Some(v) => v,
            None => {
                return Err(());
            },
        };
        let minor = match parse_u32(text, k + 1, hi) {
            Some(v) => v,
            None => {
                return Err(());
            },
        };
        Ok((major, minor))
    }

    /// Applies one `key=value` setting.
    fn apply_setting(lim: IoDeviceLimit, text: &[u8], lo: usize, hi: usize) -> (r: Result<IoDeviceLimit, ()>)
        requires
            lo <= hi <= text@.len(),
        ensures
            match apply_setting(lim, text@.subrange(lo as int, hi as int)) {
                Some(l) => r == Ok::<IoDeviceLimit, ()>(l),
                None => r is Err,
            },
    {
        let ghost w = text@.subrange(lo as int, hi as int);
        let k = match find_byte_in(text, lo, hi, 61) {
            Some(k) => k,
            None => {
                return Err(());
            },
        };
        proof {
            lemma_find_byte_bound(w, 61);
            assert(w.subrange(0, k - lo) =~= text@.subrange(lo as int, k as int));
            assert(w.subrange(k - lo + 1, w.len() as int) =~= text@.subrange(k + 1, hi as int));
        }
        let v = if is_max_word(text, k + 1, hi) {
            0u64
        } else {
            match parse_u64(text, k + 1, hi) {
                Some(v) => v,
                None => {
                    return Err(());
                },
            }
        };
        if bytes_are(text, lo, k, "rbps") {
            Ok(IoDeviceLimit { rbps: v, ..lim })
        } else if bytes_are(text, lo, k, "wbps") {
            Ok(IoDeviceLimit { wbps: v, ..lim })
        } else if bytes_are(text, lo, k, "riops") {
            Ok(IoDeviceLimit { riops: v, ..lim })
        } else if bytes_are(text, lo, k, "wiops") {
            Ok(IoDeviceLimit { wiops: v, ..lim })
        } else {
            Err(())
        }
    }

    /// Parses an `io.max` line such as `8:0 rbps=1048576 wbps=max`.
    fn parse_max_line(text: &[u8], lo: usize, hi: usize) -> (r: Result<IoDeviceLimit, ()>)
        requires
            lo <= hi <= text@.len(),
        ensures
            match line_limit(text@.subrange(lo as int, hi as int)) {
                Some(l) => r == Ok::<IoDeviceLimit, ()>(l),
                None => r is Err,
            },
    {
        let parts = split_words(text, lo, hi);
        let ghost ws = words(text@.subrange(lo as int, hi as int));
        if parts.len() == 0 {
            return Err(());
        }
        assert(ws[0] == text@.subrange(parts@[0].0 as int, parts@[0].1 as int));
        let dev = match Self::parse_dev(text, parts[0].0, parts[0].1) {
            Ok(d) => d,
            Err(_) => {
                return Err(());
            },
        };
        let mut limit = IoDeviceLimit::new(dev);
        let mut i: usize = 1;
        assert(ws.drop_first() =~= ws.subrange(1, ws.len() as int));
        while i < parts.len()
            invariant
                1 <= i <= parts@.len(),
                line_limit(text@.subrange(lo as int, hi as int)) == apply_settings(limit, ws.subrange(i as int, ws.len() as int)),
                crate::text::pieces(text@, parts@) == ws,
                forall|k: int| 0 <= k < parts@.len() ==> lo <= (#[trigger] parts@[k]).0 <= parts@[k].1 <= hi,
                hi <= text@.len(),
                apply_settings(IoDeviceLimit { dev: dev, rbps: 0, wbps: 0, riops: 0, wiops: 0 }, ws.drop_first())
                    == apply_settings(limit, ws.subrange(i as int, ws.len() as int)),
            decreases parts@.len() - i,
        {
            assert(ws[i as int] == text@.subrange(parts@[i as int].0 as int, parts@[i as int].1 as int));
            assert(ws.subrange(i as int, ws.len() as int).drop_first() =~= ws.subrange(i + 1, ws.len() as int));
            assert(ws.subrange(i as int, ws.len() as int)[0] == ws[i as int]);
            limit = match Self::apply_setting(limit, text, parts[i].0, parts[i].1) {
                Ok(l) => l,
                Err(_) => {
                    return Err(());
                },
            };
            i = i + 1;
        }
        assert(ws.drop_first() =~= ws.subrange(1, ws.len() as int));
        assert(ws.subrange(i as int, ws.len() as int).len() == 0);
        Ok(limit)
    }

    /// Appends ` key=v` (or `key=v` as the first setting) to `s`.
    fn push_setting(s: &mut String, first: bool, key: &str, v: u64)
        ensures
            final(s)@ == old(s)@ + (if first { Seq::<char>::empty() } else { " "@ }) + key@ + dec(v as nat),
    {
        if !first {
            s.append(" ");
        }
        s.append(key);
        append_u64(s, v);
        assert(final(s)@ =~= old(s)@ + (if first { Seq::<char>::empty() } else { " "@ }) + key@ + dec(v as nat));
    }

    /// The settings of a limit that are set, joined by spaces.
    fn settings_text(limit: &IoDeviceLimit) -> (s: String)
        ensures
            s@ == join(limit_parts(*limit), " "@),
    {
        let mut s = String::new();
        let ghost e = Seq::<Seq<char>>::empty();
        let ghost p0: Seq<Seq<char>> = if limit.rbps > 0 { e.push("rbps="@ + dec(limit.rbps as nat)) } else { e };
        let ghost p1 = if limit.wbps > 0 { p0.push("wbps="@ + dec(limit.wbps as nat)) } else { p0 };
        let ghost p2 = if limit.riops > 0 { p1.push("riops="@ + dec(limit.riops as nat)) } else { p1 };
        let ghost p3 = if limit.wiops > 0 { p2.push("wiops="@ + dec(limit.wiops as nat)) } else { p2 };
        proof {
            assert(e.push("rbps="@ + dec(limit.rbps as nat)) =~= seq!["rbps="@ + dec(limit.rbps as nat)]);
            assert(p3 == limit_parts(*limit));
            assert(s@ =~= join(e, " "@));
        }
        if limit.rbps > 0 {
            Self::push_setting(&mut s, true, "rbps=", limit.rbps);
            proof {
                lemma_join_push(e, "rbps="@ + dec(limit.rbps as nat), " "@);
            }
        }
        assert(s@ =~= join(p0, " "@));
        if limit.wbps > 0 {
            Self::push_setting(&mut s, limit.rbps == 0, "wbps=", limit.wbps);
            proof {
                lemma_join_push(p0, "wbps="@ + dec(limit.wbps as nat), " "@);
            }
        }
        assert(s@ =~= join(p1, " "@));
        if limit.riops > 0 {
            Self::push_setting(&mut s, limit.rbps == 0 && limit.wbps == 0, "riops=", limit.riops);
            proof {
                lemma_join_push(p1, "riops="@ + dec(limit.riops as nat), " "@);
            }
        }
        assert(s@ =~= join(p2, " "@));
        if limit.wiops > 0 {
            Self::push_setting(&mut s, limit.rbps == 0 && limit.wbps == 0 && limit.riops == 0, "wiops=", limit.wiops);
            proof {
                lemma_join_push(p2, "wiops="@ + dec(limit.wiops as nat), " "@);
            }
        }
        s
    }

    /// A limit as an `io.max` line.
    fn format_limit(limit: &IoDeviceLimit) -> (s: String)
        ensures
            s@ == limit_line(*limit),
    {
        let mut s = String::new();
        append_u64(&mut s, limit.dev.0 as u64);
        s.append(":");
        append_u64(&mut s, limit.dev.1 as u64);
        s.append(" ");
        if limit.rbps == 0 && limit.wbps == 0 && limit.riops == 0 && limit.wiops == 0 {
            assert(limit_parts(*limit).len() == 0);
            s.append("max");
        } else {
            assert(limit_parts(*limit).len() > 0);
            let t = Self::settings_text(limit);
            s.append(t.as_str());
        }
        s
    }

    /// Statistics as an `io.stat` line.
    fn format_stat(stat: &IoDeviceStat) -> (s: String)
        ensures
            s@ == stat_line(*stat),
    {
        let mut s = String::new();
        append_u64(&mut s, stat.dev.0 as u64);
        s.append(":");
        append_u64(&mut s, stat.dev.1 as u64);
        s.append(" rbytes=");
        append_u64(&mut s, stat.rbytes);
        s.append(" wbytes=");
        append_u64(&mut s, stat.wbytes);
        s.append(" rios=");
        append_u64(&mut s, stat.rios);
        s.append(" wios=");
        append_u64(&mut s, stat.wios);
        s
    }
}

/// The attributes of the `io` controller.
pub open spec fn io_attrs() -> Seq<(Seq<char>, bool)> {
    seq![("weight"@, false), ("max"@, false), ("stat"@, true)]
}

/// The text of an `io` attribute (named without the prefix), if any.
pub open spec fn io_attr_text(c: IoController, name: Seq<char>) -> Option<Seq<char>> {
    if name == "weight"@ {
        Some(dec(c.spec_state().weight as nat) + "\n"@)
    } else if name == "max"@ {
        Some(
            if c.spec_limits().len() == 0 {
                "default\n"@
            } else {
                join(c.spec_limits().map_values(|l: IoDeviceLimit| limit_line(l)), "\n"@) + "\n"@
            },
        )
    } else if name == "stat"@ {
        Some(
            if c.spec_stats().len() == 0 {
                "\n"@
            } else {
                join(c.spec_stats().map_values(|s: IoDeviceStat| stat_line(s)), "\n"@) + "\n"@
            },
        )
    } else {
        None
    }
}

/// What a write of `data` to attribute `name` does. The data must be UTF-8
/// whatever the name; `weight` takes 1 to 10000; `max` takes lines that are
/// each blank, `default` or a device limit, and, when all are, sets each
/// device's limit in turn; `stat` is read-only.
pub open spec fn io_write_outcome(
    b: IoController,
    a: IoController,
    name: Seq<char>,
    data: Seq<u8>,
    r: Result<usize, AttrError>,
) -> bool {
    let invalid = r == Err::<usize, AttrError>(AttrError::InvalidInput) && a == b;
    if !vstd::utf8::valid_utf8(data) {
        invalid
    } else {
        let t = trim(data);
        if name == "weight"@ {
            match spec_parse_u64(t) {
                Some(v) => if 1 <= v <= 10_000 {
                    r == Ok::<usize, AttrError>(data.len() as usize) && a.spec_state() == (IoState { weight: v })
                        && a.spec_limits() == b.spec_limits() && a.spec_stats() == b.spec_stats()
                } else {
                    invalid
                },
                None => invalid,
            }
        } else if name == "max"@ {
            if io_max_ok(t) {
                &&& r == Ok::<usize, AttrError>(data.len() as usize)
                &&& a.spec_state() == b.spec_state()
                &&& a.spec_stats() == b.spec_stats()
                &&& a.spec_limits() == limits_after(b.spec_limits(), split_on(t, 10))
            } else {
                invalid
            }
        } else if name == "stat"@ {
            r == Err::<usize, AttrError>(AttrError::OperationNotPermitted) && a == b
        } else {
            r == Err::<usize, AttrError>(AttrError::NotFound) && a == b
        }
    }
}

fn io_attr_list() -> (v: Vec<AttrInfo>)
    ensures
        v@.map_values(|a: AttrInfo| (a.name@, a.read_only)) == io_attrs(),
{
    let mut v = Vec::new();
    v.push(AttrInfo { name: "weight", read_only: false });
    v.push(AttrInfo { name: "max", read_only: false });
    v.push(AttrInfo { name: "stat", read_only: true });
    assert(v@.map_values(|a: AttrInfo| (a.name@, a.read_only)) =~= io_attrs());
    v
}

/// The `io` controller instance of one cgroup.
pub struct IoController {
    state: IoState,
    limits: Vec<IoDeviceLimit>,
    stats: Vec<IoDeviceStat>,
}

impl IoController {
    pub closed spec fn spec_state(&self) -> IoState {
        self.state
    }

    pub closed spec fn spec_limits(&self) -> Seq<IoDeviceLimit> {
        self.limits@
    }

    pub closed spec fn spec_stats(&self) -> Seq<IoDeviceStat> {
        self.stats@
    }

    /// An instance over `state` with no device limits or statistics.
    pub fn new(state: IoState) -> (c: Self)
        ensures
            c.spec_state() == state,
            c.spec_limits().len() == 0,
            c.spec_stats().len() == 0,
    {
        IoController { state, limits: Vec::new(), stats: Vec::new() }
    }

    /// The controller's state.
    pub fn state(&self) -> (s: &IoState)
        ensures
            *s == self.spec_state(),
    {
        &self.state
    }

    /// The controller's state, to change it (as accounting does).
    pub fn state_mut(&mut self) -> (s: &mut IoState)
        ensures
            *s == old(self).spec_state(),
            final(self).spec_state() == *final(s),
            final(self).spec_limits() == old(self).spec_limits(),
            final(self).spec_stats() == old(self).spec_stats(),
    {
        &mut self.state
    }

    pub fn name(&self) -> (s: &'static str)
        ensures
            s@ == "io"@,
    {
        "io"
    }

    /// `io` is a domain controller.
    pub fn is_domain(&self) -> (d: bool)
        ensures
            d,
    {
        true
    }

    /// Reads `weight`, `max` or `stat` at `offset` into `buf`.
    pub fn read_attr(&self, name: &str, offset: usize, buf: &mut [u8]) -> (r: Result<usize, AttrError>)
        ensures
            attr_read_outcome(io_attr_text(*self, name@), offset as nat, old(buf)@, final(buf)@, r),
    {
        let mut text = String::new();
        if str_is(name, "weight") {
            append_u64(&mut text, self.state.weight);
            text.append("\n");
        } else if str_is(name, "max") {
            if self.limits.len() == 0 {
                text.append("default\n");
            } else {
                let mut i: usize = 0;
                while i < self.limits.len()
                    invariant
                        i <= self.limits@.len(),
                        text@ == join(self.limits@.take(i as int).map_values(|l: IoDeviceLimit| limit_line(l)), "\n"@),
                    decreases self.limits@.len() - i,
                {
                    let ghost done = self.limits@.take(i as int).map_values(|l: IoDeviceLimit| limit_line(l));
                    proof {
                        lemma_join_push(done, limit_line(self.limits@[i as int]), "\n"@);
                        assert(self.limits@.take(i + 1).map_values(|l: IoDeviceLimit| limit_line(l)) =~= done.push(limit_line(self.limits@[i as int])));
                    }
                    if i > 0 {
                        text.append("\n");
                    }
                    let line = IoState::format_limit(&self.limits[i]);
                    text.append(line.as_str());
                    i = i + 1;
                }
                assert(self.limits@.take(i as int) =~= self.limits@);
                text.append("\n");
            }
        } else if str_is(name, "stat") {
            if self.stats.len() == 0 {
                text.append("\n");
            } else {
                let mut i: usize = 0;
                while i < self.stats.len()
                    invariant
                        i <= self.stats@.len(),
                        text@ == join(self.stats@.take(i as int).map_values(|s: IoDeviceStat| stat_line(s)), "\n"@),
                    decreases self.stats@.len() - i,
                {
                    let ghost done = self.stats@.take(i as int).map_values(|s: IoDeviceStat| stat_line(s));
                    proof {
                        lemma_join_push(done, stat_line(self.stats@[i as int]), "\n"@);
                        assert(self.stats@.take(i + 1).map_values(|s: IoDeviceStat| stat_line(s)) =~= done.push(stat_line(self.stats@[i as int])));
                    }
                    if i > 0 {
                        text.append("\n");
                    }
                    let line = IoState::format_stat(&self.stats[i]);
                    text.append(line.as_str());
                    i = i + 1;
                }
                assert(self.stats@.take(i as int) =~= self.stats@);
                text.append("\n");
            }
        } else {
            return Err(AttrError::NotFound);
        }
        Ok(read_text_at(&text, offset, buf))
    }

    /// Checks every line of an `io.max` write within `data[lo..hi]`.
    fn check_max_lines(data: &[u8], lo: usize, hi: usize) -> (ok: bool)
        requires
            lo <= hi <= data@.len(),
        ensures
            ok == io_max_ok(data@.subrange(lo as int, hi as int)),
        decreases hi - lo,
    {
        let ghost t = data@.subrange(lo as int, hi as int);
        proof {
            lemma_find_byte_bound(t, 10);
        }
        let (end, next) = match find_byte_in(data, lo, hi, 10) {
            Some(k) => (k, k + 1),
            None => (hi, hi),
        };
        let ghost first = data@.subrange(lo as int, end as int);
        let (l_lo, l_hi) = trim_bounds(data, lo, end);
        let line_good = l_lo == l_hi || bytes_are(data, l_lo, l_hi, "default") || IoState::parse_max_line(data, l_lo, l_hi).is_ok();
        proof {
            assert(line_good == line_ok(first));
        }
        let rest_good = if next < hi || end < hi {
            if !line_good {
                false
            } else {
                Self::check_max_lines(data, next, hi)
            }
        } else {
            true
        };
        proof {
            match find_byte(t, 10) {
                Some(k) => {
                    assert(t.subrange(0, k) =~= first);
                    assert(t.subrange(k + 1, t.len() as int) =~= data@.subrange(next as int, hi as int));
                    let rest = data@.subrange(next as int, hi as int);
                    assert(split_on(t, 10) == seq![first] + split_on(rest, 10));
                    if line_good && rest_good {
                        assert forall|i: int| 0 <= i < split_on(t, 10).len() implies line_ok(#[trigger] split_on(t, 10)[i]) by {
                            if i > 0 {
                                assert(split_on(t, 10)[i] == split_on(rest, 10)[i - 1]);
                            }
                        }
                    }
                    if !line_good {
                        assert(split_on(t, 10)[0] == first);
                    }
                    if line_good && !rest_good {
                        let j = choose|j: int| 0 <= j < split_on(rest, 10).len() && !line_ok(#[trigger] split_on(rest, 10)[j]);
                        assert(split_on(t, 10)[j + 1] == split_on(rest, 10)[j]);
                    }
                },
                None => {
                    assert(first =~= t);
                    assert(split_on(t, 10) == seq![t]);
                    assert(split_on(t, 10)[0] == t);
                },
            }
        }
        line_good && rest_good
    }

    /// Sets `l` as the limit of its device: in place of the one there, or
    /// appended.
    fn set_limit(limits: &mut Vec<IoDeviceLimit>, l: IoDeviceLimit)
        ensures
            final(limits)@ == set_limit(old(limits)@, l),
    {
        let ghost ls = limits@;
        let mut i: usize = 0;
        while i < limits.len()
            invariant
                limits@ == ls,
                old(limits)@ == ls,
                0 <= i <= ls.len(),
                dev_index_from(ls, l.dev, 0) == dev_index_from(ls, l.dev, i as int),
            decreases ls.len() - i,
        {
            if limits[i].dev.0 == l.dev.0 && limits[i].dev.1 == l.dev.1 {
                assert(ls[i as int].dev == l.dev);
                assert(dev_index_from(ls, l.dev, i as int) == Some(i as int));
                limits.set(i, l);
                return;
            }
            i = i + 1;
        }
        limits.push(l);
    }

    /// Applies the lines of an `io.max` write within `data[lo..hi]`.
    fn apply_max_lines(limits: &mut Vec<IoDeviceLimit>, data: &[u8], lo: usize, hi: usize)
        requires
            lo <= hi <= data@.len(),
        ensures
            final(limits)@ == limits_after(old(limits)@, split_on(data@.subrange(lo as int, hi as int), 10)),
        decreases hi - lo,
    {
        let ghost t = data@.subrange(lo as int, hi as int);
        proof {
            lemma_find_byte_bound(t, 10);
        }
        let found = find_byte_in(data, lo, hi, 10);
        let end = match found {
            Some(k) => k,
            None => hi,
        };
        let ghost first = data@.subrange(lo as int, end as int);
        let ghost before = limits@;
        let (l_lo, l_hi) = trim_bounds(data, lo, end);
        match IoState::parse_max_line(data, l_lo, l_hi) {
            Ok(l) => Self::set_limit(limits, l),
            Err(_) => {},
        }
        let ghost mid = limits@;
        assert(mid == apply_max_line(before, first));
        match found {
            Some(k) => {
                let ghost rest = data@.subrange(k + 1, hi as int);
                proof {
                    assert(t.subrange(0, k - lo) =~= first);
                    assert(t.subrange(k - lo + 1, t.len() as int) =~= rest);
                    assert(split_on(t, 10) == seq![first] + split_on(rest, 10));
                    assert(split_on(t, 10).drop_first() =~= split_on(rest, 10));
                    assert(split_on(t, 10)[0] == first);
                    assert(limits_after(before, split_on(t, 10)) == limits_after(mid, split_on(rest, 10)));
                }
                Self::apply_max_lines(limits, data, k + 1, hi);
            },
            None => {
                proof {
                    assert(first =~= t);
                    assert(split_on(t, 10) == seq![t]);
                    assert(split_on(t, 10).drop_first() =~= Seq::<Seq<u8>>::empty());
                    assert(split_on(t, 10)[0] == first);
                    assert(limits_after(mid, Seq::<Seq<u8>>::empty()) == mid);
                }
            },
        }
    }

    /// Writes `weight` or the device limits of `max`; `stat` is read-only.
    pub fn write_attr(&mut self, name: &str, data: &[u8]) -> (r: Result<usize, AttrError>)
        ensures
            io_write_outcome(*old(self), *final(self), name@, data@, r),
    {
        if !is_utf8(data) {
            return Err(AttrError::InvalidInput);
        }
        let (lo, hi) = trim_bounds(data, 0, data.len());
        assert(data@.subrange(0, data@.len() as int) =~= data@);
        if str_is(name, "weight") {
            match parse_u64(data, lo, hi) {
                Some(v) => {
                    if v < 1 || v > 10_000 {
                        return Err(AttrError::InvalidInput);
                    }
                    self.state.weight = v;
                    Ok(data.len())
                },
                None => Err(AttrError::InvalidInput),
            }
        } else if str_is(name, "max") {
            if Self::check_max_lines(data, lo, hi) {
                Self::apply_max_lines(&mut self.limits, data, lo, hi);
                Ok(data.len())
            } else {
                Err(AttrError::InvalidInput)
            }
        } else if str_is(name, "stat") {
            Err(AttrError::OperationNotPermitted)
        } else {
            Err(AttrError::NotFound)
        }
    }

    /// The attributes of the controller.
    pub fn attr_names(&self) -> (v: Vec<AttrInfo>)
        ensures
            v@.map_values(|a: AttrInfo| (a.name@, a.read_only)) == io_attrs(),
    {
        io_attr_list()
    }
}

/// Creates `io` controller instances.
pub struct IoControllerFactory;

impl IoControllerFactory {
    pub fn name(&self) -> (s: &'static str)
        ensures
            s@ == "io"@,
    {
        "io"
    }

    /// `io` is a domain controller.
    pub fn is_domain(&self) -> (d: bool)
        ensures
            d,
    {
        true
    }

    /// The attributes of the controller.
    pub fn attr_names(&self) -> (v: Vec<AttrInfo>)
        ensures
            v@.map_values(|a: AttrInfo| (a.name@, a.read_only)) == io_attrs(),
    {
        io_attr_list()
    }

    /// A new instance over fresh state.
    pub fn new_instance(&self) -> (c: IoController)
        ensures
            c.spec_state() == (IoState { weight: 100 }),
            c.spec_limits().len() == 0,
            c.spec_stats().len() == 0,
    {
        IoController::new(IoState::new())
    }
}

// ---------------------------------------------------------------------------
// Laws
// ---------------------------------------------------------------------------

/// A weight in range written to `io.weight` reads back as written, and the
/// limits and statistics stay.
pub proof fn io_weight_reads_back(b: IoController, a: IoController, w: u64, r: Result<usize, AttrError>)
    requires
        1 <= w <= 10_000,
        io_write_outcome(b, a, "weight"@, crate::text::decimal(w as nat), r),
    ensures
        r is Ok,
        io_attr_text(a, "weight"@) == Some(dec(w as nat) + "\n"@),
        a.spec_limits() == b.spec_limits(),
{
    crate::text::lemma_parse_decimal(w as nat);
    crate::text::lemma_parse_decimal_typed(w as nat);
}

/// A valid `io.max` write of one device limit sets that device's limit,
/// in place of the one it had or after the others; written to a controller
/// without limits, it is what `max` then reads.
pub proof fn io_max_sets_device_limit(
    b: IoController,
    a: IoController,
    data: Seq<u8>,
    line: Seq<u8>,
    l: IoDeviceLimit,
    r: Result<usize, AttrError>,
)
    requires
        vstd::utf8::valid_utf8(data),
        split_on(trim(data), 10) == seq![line],
        line_limit(trim(line)) == Some(l),
        io_write_outcome(b, a, "max"@, data, r),
    ensures
        r == Ok::<usize, AttrError>(data.len() as usize),
        a.spec_limits() == set_limit(b.spec_limits(), l),
        a.spec_state() == b.spec_state(),
        b.spec_limits().len() == 0 ==> io_attr_text(a, "max"@) == Some(limit_line(l) + "\n"@),
{
    reveal_strlit("max");
    reveal_strlit("weight");
    assert("max"@.len() == 3);
    assert("weight"@.len() == 6);
    assert("max"@ != "weight"@);
    let t = trim(data);
    assert(split_on(t, 10)[0] == line);
    assert(line_ok(line));
    assert(io_max_ok(t));
    assert(seq![line].drop_first() =~= Seq::<Seq<u8>>::empty());
    assert(limits_after(b.spec_limits(), seq![line]) == limits_after(set_limit(b.spec_limits(), l), Seq::<Seq<u8>>::empty()));
    if b.spec_limits().len() == 0 {
        assert(dev_index_from(b.spec_limits(), l.dev, 0) is None);
        assert(a.spec_limits() =~= seq![l]);
        assert(a.spec_limits().map_values(|x: IoDeviceLimit| limit_line(x)) =~= seq![limit_line(l)]);
    }
}

/// The weight stays between 1 and 10000 whatever is written: a write
/// outside that range is refused.
pub proof fn io_weight_stays_in_range(b: IoController, a: IoController, name: Seq<char>, data: Seq<u8>, r: Result<usize, AttrError>)
    requires
        io_write_outcome(b, a, name, data, r),
        1 <= b.spec_state().weight <= 10_000,
    ensures
        1 <= a.spec_state().weight <= 10_000,
{
}

} // verus!
