//! The heartbeat: the result of the latest probe and its time, in a file that
//! the health check of the container reads.

use crate::system;
use crate::text;
use vstd::prelude::*;

verus! {

/// The file of the heartbeat.
pub const HEARTBEAT_PATH: &'static str = "/tmp/warp-socks-health";

/// What the file holds: a line for the result, and one for its time in seconds.
pub open spec fn heartbeat_text(ok: bool, now: u64) -> Seq<char> {
    (if ok {
        "ok"@
    } else {
        "fail"@
    }) + seq!['\n'] + (text::decimal(now as nat) + seq!['\n'] + Seq::<char>::empty())
}

/// The heartbeat of a probe that ended at `now`.
pub fn record_at(ok: bool, now: u64) -> (out: String)
    ensures
        out@ == heartbeat_text(ok, now),
{
    let mut out: Vec<char> = Vec::new();
    if ok {
        text::push_str(&mut out, "ok");
    } else {
        text::push_str(&mut out, "fail");
    }
    out.push('\n');
    text::push_decimal(&mut out, now);
    out.push('\n');
    assert(out@ =~= heartbeat_text(ok, now));
    text::string_of(out.as_slice())
}

/// The heartbeat of a probe that has just ended.
pub fn record(ok: bool) -> (out: String)
    ensures
        exists|now: u64| out@ == #[trigger] heartbeat_text(ok, now),
{
    let now: u64 = system::now_unix();
    record_at(ok, now)
}

/// How long ago the heartbeat was, in seconds; zero where its time is ahead.
pub open spec fn age_of(now: u64, then: nat) -> nat {
    if now >= then {
        (now - then) as nat
    } else {
        0
    }
}

/// Why a heartbeat does not speak for a working tunnel: it cannot be read, it is
/// older than `max_age` seconds, or its probe failed. `None` where it does.
pub open spec fn complaint(content: Seq<char>, now: u64, max_age: u64) -> Option<Seq<char>> {
    let lines = text::lines_of(content);
    let then = if lines.len() < 2 {
        None
    } else {
        text::parsed_up_to(lines[1], u64::MAX as nat)
    };
    match then {
        None => Some("心跳文件格式异常"@),
        Some(t) => if age_of(now, t) > max_age {
            Some(
                "心跳已过期（"@ + text::decimal(age_of(now, t))
                    + "s 未更新，运行期健康检查循环可能已卡住）"@,
            )
        } else if lines[0] != "ok"@ {
            Some("最近一次运行期探测失败"@)
        } else {
            None
        },
    }
}

/// Judges a heartbeat at `now`.
pub fn evaluate(content: &str, now: u64, max_age: u64) -> (r: Result<(), String>)
    ensures
        match r {
            Ok(_) => complaint(content@, now, max_age) is None,
            Err(e) => complaint(content@, now, max_age) == Some(e@),
        },
{
    let chars = text::chars_of(content);
    let lines = text::lines(chars.as_slice());
    assert(text::pieces(lines@).len() == lines@.len());
    if lines.len() < 2 {
        return Err("心跳文件格式异常".to_owned());
    }
    assert(text::pieces(lines@)[0] == lines@[0]@ && text::pieces(lines@)[1] == lines@[1]@);
    match text::parse_up_to(lines[1].as_slice(), u64::MAX) {
        None => Err("心跳文件格式异常".to_owned()),
        Some(then) => {
            let age: u64 = if now >= then {
                now - then
            } else {
                0
            };
            if age > max_age {
                let mut out: Vec<char> = Vec::new();
                text::push_str(&mut out, "心跳已过期（");
                text::push_decimal(&mut out, age);
                text::push_str(&mut out, "s 未更新，运行期健康检查循环可能已卡住）");
                return Err(text::string_of(out.as_slice()));
            }
            if !text::is_text(lines[0].as_slice(), "ok") {
                return Err("最近一次运行期探测失败".to_owned());
            }
            Ok(())
        },
    }
}

/// Judges the heartbeat that the file holds; `None` where there is no file.
pub fn check(content: Option<&str>, max_age: u64) -> (r: Result<(), String>)
    ensures
        match content {
            None => r matches Err(e) && e@
                == "尚无心跳记录（可能刚启动，还没跑完第一次探测）"@,
            Some(c) => exists|now: u64|
                match r {
                    Ok(_) => #[trigger] complaint(c@, now, max_age) is None,
                    Err(e) => complaint(c@, now, max_age) == Some(e@),
                },
        },
{
    match content {
        None => Err(
            "尚无心跳记录（可能刚启动，还没跑完第一次探测）".to_owned(),
        ),
        Some(c) => {
            let now: u64 = system::now_unix();
            evaluate(c, now, max_age)
        },
    }
}

/// A heartbeat speaks for a working tunnel exactly when its probe succeeded and
/// it is not older than it may be.
pub proof fn lemma_heartbeat_read_back(ok: bool, then: u64, now: u64, max_age: u64)
    ensures
        complaint(heartbeat_text(ok, then), now, max_age) is None <==> ok && now - then <= max_age,
{
    let first = if ok {
        "ok"@
    } else {
        "fail"@
    };
    let d = text::decimal(then as nat);
    text::lemma_decimal(then as nat);
    text::lemma_decimal_read_back(then as nat);
    reveal_strlit("ok");
    reveal_strlit("fail");
    assert("ok"@.len() == 2 && "fail"@.len() == 4);
    assert(!first.contains('\n'));
    assert(!d.contains('\n')) by {
        if d.contains('\n') {
            let k = choose|k: int| 0 <= k < d.len() && d[k] == '\n';
            assert(text::is_digit(d[k]));
        }
    }
    assert(text::is_digit(d[d.len() - 1]));
    let rest = d + seq!['\n'] + Seq::<char>::empty();
    text::lemma_lines_cons(first, rest);
    text::lemma_lines_cons(d, Seq::empty());
    let lines = text::lines_of(heartbeat_text(ok, then));
    assert(text::lines_of(Seq::<char>::empty()) =~= Seq::empty());
    assert(lines =~= seq![first, d]);
    assert(lines[0] == first && lines[1] == d);
    if !ok {
        assert(first != "ok"@);
    }
}

} // verus!
