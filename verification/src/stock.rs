//! The V821B dongle in its stock firmware: what its web page says, how an image is uploaded to it,
//! and the shell that runs one command after the other.

use vstd::prelude::*;
use vstd::string::StringSliceAdditionalSpecFns;
use vstd::utf8::encode_utf8;

use crate::bytes::append;
use crate::text::{contains, dec, find, find_char, first, place_of, put_dec, read_signed32, signed32};
use crate::text::{trim, trim_end, trim_str, trimmed_end};

verus! {

/// What marks the end of a command's output.
pub const SENTINEL: &'static str = "LIVI-END";

/// What the dongle's page says about it.
#[derive(Debug)]
pub struct HostInfo {
    pub update: i32,
    pub sn: String,
    pub wifi: String,
    pub otp: String,
    pub name: String,
    pub sys: HostSys,
}

#[derive(Debug)]
pub struct HostSys {
    pub appver: String,
    pub led: String,
}

/// The page that answers for the dongle.
pub fn cgi_url(host: &str) -> (out: String)
    ensures
        out@ == "http://"@ + host@ + "/cgi-bin/index.cgi"@,
{
    let mut out = "http://".to_owned();
    out.append(host);
    out.append("/cgi-bin/index.cgi");
    out
}

/// An image as the one file of a form.
pub open spec fn form(boundary: Seq<char>, image: Seq<u8>) -> Seq<u8> {
    encode_utf8("--"@ + boundary + "\r\n"@)
        + encode_utf8("Content-Disposition: form-data; name=\"file\"; filename=\"update.img\"\r\n"@)
        + encode_utf8("Content-Type: application/octet-stream\r\n\r\n"@) + image
        + encode_utf8("\r\n--"@ + boundary + "--\r\n"@)
}

/// Writes an image as the one file of a form.
pub fn upload_body(boundary: &str, image: &[u8]) -> (body: Vec<u8>)
    ensures
        body@ == form(boundary@, image@),
{
    let mut head = "--".to_owned();
    head.append(boundary);
    head.append("\r\n");
    let mut tail = "\r\n--".to_owned();
    tail.append(boundary);
    tail.append("--\r\n");
    let mut body: Vec<u8> = Vec::new();
    append(&mut body, head.as_str().as_bytes());
    assert(body@ =~= encode_utf8("--"@ + boundary@ + "\r\n"@));
    append(&mut body, "Content-Disposition: form-data; name=\"file\"; filename=\"update.img\"\r\n".as_bytes());
    append(&mut body, "Content-Type: application/octet-stream\r\n\r\n".as_bytes());
    append(&mut body, image);
    append(&mut body, tail.as_str().as_bytes());
    body
}

/// What a look at an update comes to.
pub enum Update {
    Done,
    Failed(String),
    Wait,
}

/// What a look at an update comes to, by the state the dongle reports, which it does not while it
/// reboots. The third state is the end, anything above is a failure.
pub fn update_step(state: Option<i32>, expired: bool, deadline_secs: u64) -> (r: Update)
    ensures
        match r {
            Update::Done => state == Some(3i32),
            Update::Failed(why) => if (state matches Some(s) && s > 3) {
                why@ == "update failed (code "@ + dec(state->0 as nat) + ")"@
            } else {
                &&& expired
                &&& state != Some(3i32)
                &&& why@ == "update did not reach state 3 within "@ + dec(deadline_secs as nat) + "s"@
            },
            Update::Wait => !expired && (state matches Some(s) ==> s < 3),
        },
{
    if let Some(s) = state {
        if s == 3 {
            return Update::Done;
        }
        if s > 3 {
            let mut why = "update failed (code ".to_owned();
            put_dec(&mut why, s as u64);
            why.append(")");
            return Update::Failed(why);
        }
    }
    if expired {
        let mut why = "update did not reach state 3 within ".to_owned();
        put_dec(&mut why, deadline_secs);
        why.append("s");
        return Update::Failed(why);
    }
    Update::Wait
}

/// A signed number in decimal.
pub open spec fn signed_dec(n: int) -> Seq<char> {
    if n < 0 { "-"@ + dec((-n) as nat) } else { dec(n as nat) }
}

/// Writes a signed number in decimal.
pub fn put_signed(out: &mut String, n: i32)
    ensures
        final(out)@ == old(out)@ + signed_dec(n as int),
{
    let ghost start = out@;
    if n < 0 {
        out.append("-");
        put_dec(out, (0 - n as i64) as u64);
    } else {
        put_dec(out, n as u64);
    }
    assert(out@ =~= start + signed_dec(n as int));
}

/// Why the shell is not installed: the dongle is busy with an update.
pub fn idle(info: &HostInfo) -> (r: Result<(), String>)
    ensures
        match r {
            Ok(()) => info.update == 0,
            Err(why) => info.update != 0
                && why@ == "dongle is not idle (update="@ + signed_dec(info.update as int) + "); reboot and retry"@,
        },
{
    if info.update == 0 {
        return Ok(());
    }
    let mut why = "dongle is not idle (update=".to_owned();
    put_signed(&mut why, info.update);
    why.append("); reboot and retry");
    Err(why)
}

/// The line that runs a command and marks the end of its output with its result.
pub fn command_line(cmd: &str) -> (out: String)
    ensures
        out@ == "("@ + cmd@ + "); echo LIVI-END:$?\n"@,
{
    let mut out = "(".to_owned();
    out.append(cmd);
    out.append("); echo LIVI-END:$?\n");
    out
}

/// The line that streams a command's output, with the mark on a line of its own behind it.
pub fn stream_line(cmd: &str) -> (out: String)
    ensures
        out@ == "("@ + cmd@ + ") 2>/dev/null; printf '\\nLIVI-END:0\\n'\n"@,
{
    let mut out = "(".to_owned();
    out.append(cmd);
    out.append(") 2>/dev/null; printf '\\nLIVI-END:0\\n'\n");
    out
}

/// What came in up to the mark: the output, the result, and what follows the mark's line.
pub struct Finished {
    pub output: String,
    pub code: i32,
    pub rest: String,
}

/// Whether the mark is in, with the separator behind it.
pub open spec fn marked(buf: Seq<char>) -> bool {
    place_of(buf, SENTINEL@, 0) matches Some(i) && i + 8 < buf.len() && buf[i + 8] <= '\u{7f}'
}

/// What follows the mark and its separator.
pub open spec fn behind(buf: Seq<char>) -> Seq<char> {
    buf.skip(place_of(buf, SENTINEL@, 0)->0 + 9)
}

/// The result a mark carries: what stands behind it on its line, or a failure where that is no
/// number.
pub open spec fn result_of(after: Seq<char>) -> int {
    let line = after.take(first(after, '\n') as int);
    match signed32(trim(line)) {
        Some(n) => n,
        None => -1,
    }
}

/// Takes a finished command off what came in. Nothing is finished while the mark is missing.
pub fn finished(buf: &str) -> (r: Option<Finished>)
    requires
        contains(buf@, SENTINEL@) ==> marked(buf@),
    ensures
        match r {
            Some(f) => {
                &&& marked(buf@)
                &&& f.output@ == trim_end(buf@.take(place_of(buf@, SENTINEL@, 0)->0))
                &&& f.code == result_of(behind(buf@))
                &&& f.rest@ == (if first(behind(buf@), '\n') < behind(buf@).len() {
                    behind(buf@).skip(first(behind(buf@), '\n') as int + 1)
                } else {
                    Seq::empty()
                })
            },
            None => !contains(buf@, SENTINEL@),
        },
{
    let n: usize = buf.unicode_len();
    let idx: usize = match find(buf, SENTINEL) {
        Some(i) => i,
        None => {
            return None;
        },
    };
    proof {
        assert(contains(buf@, SENTINEL@));
    }
    assert(buf@.subrange(0, idx as int) =~= buf@.take(idx as int));
    let output = trimmed_end(buf.substring_char(0, idx));
    assert(buf@.subrange(idx + 9, n as int) =~= buf@.skip(idx + 9));
    let after = buf.substring_char(idx + 9, n);
    let m: usize = after.unicode_len();
    let (line, rest): (&str, String) = match find_char(after, '\n') {
        Some(at) => {
            assert(after@.subrange(0, at as int) =~= after@.take(at as int));
            assert(after@.subrange(at + 1, m as int) =~= after@.skip(at + 1));
            (after.substring_char(0, at), after.substring_char(at + 1, m).to_owned())
        },
        None => {
            assert(after@.take(m as int) =~= after@);
            (after, String::new())
        },
    };
    let code: i32 = match read_signed32(trim_str(line)) {
        Some(c) => c,
        None => -1,
    };
    Some(Finished { output, code, rest })
}

/// What a finished command comes to: its output, or a failure that names it.
pub fn outcome(cmd: &str, f: &Finished) -> (r: Result<String, String>)
    ensures
        match r {
            Ok(out) => f.code == 0 && out@ == f.output@,
            Err(why) => f.code != 0
                && why@ == "`"@ + cmd@ + "` exit "@ + signed_dec(f.code as int) + ": "@ + f.output@,
        },
{
    if f.code == 0 {
        return Ok(f.output.clone());
    }
    let mut why = "`".to_owned();
    why.append(cmd);
    why.append("` exit ");
    put_signed(&mut why, f.code);
    why.append(": ");
    why.append(f.output.as_str());
    Err(why)
}

/// Whether enough came in of a stream, and how much to read next, at most a buffer full.
pub fn next_read(have: usize, expected: usize, room: usize) -> (r: Option<usize>)
    ensures
        match r {
            Some(n) => have < expected && n == (if expected - have < room { expected - have } else { room as int }),
            None => have >= expected,
        },
{
    if have >= expected {
        return None;
    }
    let left: usize = expected - have;
    Some(if left < room { left } else { room })
}

/// An image is uploaded as it is: in front of it the head of a form, behind it the closing boundary, and
/// both are the same for every image.
pub proof fn an_image_is_uploaded_as_it_is(boundary: Seq<char>, image: Seq<u8>, other: Seq<u8>)
    ensures
        ({
            let end = encode_utf8("\r\n--"@ + boundary + "--\r\n"@);
            let head = form(boundary, Seq::empty()).len() - end.len();
            let f = form(boundary, image);
            let g = form(boundary, other);
            &&& f.len() == head + image.len() + end.len()
            &&& f.subrange(head, head + image.len() as int) == image
            &&& f.skip(head + image.len() as int) == end
            &&& f.take(head) == g.take(head)
            &&& f.take(encode_utf8("--"@ + boundary + "\r\n"@).len() as int) == encode_utf8("--"@ + boundary + "\r\n"@)
        }),
{
    let a = encode_utf8("--"@ + boundary + "\r\n"@);
    let b = encode_utf8("Content-Disposition: form-data; name=\"file\"; filename=\"update.img\"\r\n"@);
    let c = encode_utf8("Content-Type: application/octet-stream\r\n\r\n"@);
    let end = encode_utf8("\r\n--"@ + boundary + "--\r\n"@);
    let h = a + b + c;
    let head = h.len() as int;
    let f = form(boundary, image);
    let g = form(boundary, other);
    assert(f.subrange(head, head + image.len() as int) =~= image);
    assert(f.skip(head + image.len() as int) =~= end);
    assert(f.take(head) =~= h);
    assert(g.take(head) =~= h);
    assert(f.take(a.len() as int) =~= a);
}

/// A signed number that was written is read back.
pub proof fn a_signed_number_reads_back(n: i32)
    ensures
        signed32(signed_dec(n as int)) == Some(n as int),
        forall|k: int| 0 <= k < signed_dec(n as int).len() ==> !crate::text::is_space(#[trigger] signed_dec(n as int)[k]),
        signed_dec(n as int).len() > 0,
{
    reveal_strlit("-");
    let m = (if n < 0 { -n } else { n as int }) as nat;
    let s = signed_dec(n as int);
    crate::text::a_number_reads_back(m, 10);
    if n < 0 {
        assert(s.skip(1) =~= dec(m));
        assert(s[0] == '-');
    }
    assert forall|k: int| 0 <= k < s.len() implies !crate::text::is_space(#[trigger] s[k]) by {
        if n < 0 {
            if k > 0 {
                crate::text::a_number_is_made_of_digits(m, 10, k - 1);
                assert(s[k] == dec(m)[k - 1]);
            }
        } else {
            crate::text::a_number_is_made_of_digits(m, 10, k);
        }
    }
}

/// A command that printed something and ended with a result is taken off with that output and that result,
/// and what came behind the mark's line is left.
pub proof fn a_finished_command_reads_back(output: Seq<char>, code: i32, rest: Seq<char>)
    requires
        !contains(output + SENTINEL@.take(7), SENTINEL@),
    ensures
        ({
            let buf = output + SENTINEL@ + seq![':'] + signed_dec(code as int) + seq!['\n'] + rest;
            &&& marked(buf)
            &&& place_of(buf, SENTINEL@, 0) == Some(output.len() as int)
            &&& buf.take(output.len() as int) == output
            &&& result_of(behind(buf)) == code
            &&& behind(buf).skip(first(behind(buf), '\n') as int + 1) == rest
        }),
{
    reveal_strlit("LIVI-END");
    let w = SENTINEL@;
    let number = signed_dec(code as int);
    let buf = output + w + seq![':'] + number + seq!['\n'] + rest;
    let n = output.len() as int;
    assert(w.len() == 8);
    assert(buf.subrange(n, n + 8) =~= w);
    assert(crate::text::stands_at(buf, w, n));
    let front = output + w.take(7);
    assert forall|j: int| 0 <= j < n implies !#[trigger] crate::text::stands_at(buf, w, j) by {
        if crate::text::stands_at(buf, w, j) {
            assert(front.subrange(j, j + 8) =~= buf.subrange(j, j + 8));
            assert(crate::text::stands_at(front, w, j));
        }
    }
    crate::text::the_first_place_is_found(buf, w, 0);
    match place_of(buf, w, 0) {
        Some(i) => {
            if i < n {
                assert(crate::text::stands_at(buf, w, i));
            }
            if i > n {
                assert(!crate::text::stands_at(buf, w, n));
            }
        },
        None => {
            assert(!crate::text::stands_at(buf, w, n));
        },
    }
    assert(buf[n + 8] == ':');
    assert(buf.take(n) =~= output);
    let after = behind(buf);
    assert(after =~= number + seq!['\n'] + rest);
    a_signed_number_reads_back(code);
    assert(crate::text::is_space('\n'));
    assert forall|k: int| 0 <= k < number.len() implies after[k] != '\n' by {
        assert(after[k] == number[k]);
        assert(!crate::text::is_space(number[k]));
    }
    assert(after[number.len() as int] == '\n');
    crate::text::first_at(after, '\n', number.len() as int);
    assert(after.take(number.len() as int) =~= number);
    assert(number.last() == number[number.len() - 1]);
    crate::text::untouched(number);
    assert(after.skip(number.len() as int + 1) =~= rest);
}

/// A command that ended is handed over with what it printed, its result and what came behind it.
pub proof fn a_command_is_handed_over(buf: &str, output: Seq<char>, code: i32, rest: Seq<char>, r: Option<Finished>)
    requires
        call_ensures(finished, (buf,), r),
        !contains(output + SENTINEL@.take(7), SENTINEL@),
        buf@ == output + SENTINEL@ + seq![':'] + signed_dec(code as int) + seq!['\n'] + rest,
    ensures
        r matches Some(f) && f.output@ == trim_end(output) && f.code == code && f.rest@ == rest,
{
    reveal_strlit("LIVI-END");
    a_finished_command_reads_back(output, code, rest);
    let n = output.len() as int;
    assert(buf@.subrange(n, n + 8) =~= SENTINEL@);
    assert(crate::text::stands_at(buf@, SENTINEL@, n));
    a_signed_number_reads_back(code);
    let after = behind(buf@);
    assert(after =~= signed_dec(code as int) + seq!['\n'] + rest);
    crate::text::first_bounds(after, '\n');
    assert(after[signed_dec(code as int).len() as int] == '\n');
}

/// An update is over at state three, failed above it, and else waited for until its time is up.
pub proof fn what_an_update_comes_to(state: i32, expired: bool, secs: u64, r: Update)
    requires
        call_ensures(update_step, (Some(state), expired, secs), r),
    ensures
        state == 3 ==> r is Done,
        state > 3 ==> r is Failed,
        state < 3 && expired ==> r is Failed,
        state < 3 && !expired ==> r is Wait,
{
}

} // verus!
