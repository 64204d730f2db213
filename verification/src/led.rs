//! The dongles' lights: what state they show, and the pattern that puts a colour on a pixel.

use vstd::prelude::*;

use crate::bytes::zeros;
use crate::text::{begins, find_char, first, lines, lines_of, pieces, read_unsigned, same_text, split_on, starts_with};
use crate::text::{strip_all, stripped, trim, trimmed, unquote, unquoted, unsigned, unsigned_in_range, views};

verus! {

pub const TICK_HZ: u64 = 50;
pub const SPI_HZ: u32 = 3_200_000;
/// Zero bytes in front of and behind the pixel, longer than the reset time of the chip.
pub const GAP: usize = 25;

/// A colour.
#[derive(Clone, Copy, PartialEq, Eq, Structural, Debug)]
pub struct Rgb(pub u8, pub u8, pub u8);

pub open spec fn off() -> Rgb {
    Rgb(0, 0, 0)
}

pub open spec fn blue() -> Rgb {
    Rgb(0, 0, 255)
}

/// How the light is set up.
#[derive(Clone, Copy, PartialEq, Eq, Structural, Debug)]
pub struct LedConfig {
    pub status: Rgb,
    /// 0 to 100 percent. At 0 the light is off.
    pub brightness_pct: u8,
    /// A gain per channel on top of the brightness, so that equal values read as white.
    pub wb: Rgb,
}

/// What the light is set up with where nothing else is said.
pub open spec fn default_config() -> LedConfig {
    LedConfig { status: Rgb(0x4d, 0xd0, 0xe1), brightness_pct: 20, wb: Rgb(255, 190, 130) }
}

/// The colour of three values.
pub open spec fn three(a: Option<int>, b: Option<int>, c: Option<int>) -> Option<Rgb> {
    match (a, b, c) {
        (Some(r), Some(g), Some(b)) => Some(Rgb(r as u8, g as u8, b as u8)),
        _ => None,
    }
}

/// The colour a text writes: `#rrggbb`, or three numbers with commas between.
pub open spec fn colour_of(s: Seq<char>) -> Option<Rgb> {
    if starts_with(s, "#"@) {
        let h = s.skip(1);
        if h.len() != 6 {
            None
        } else {
            three(
                unsigned(h.subrange(0, 2), 16, 255),
                unsigned(h.subrange(2, 4), 16, 255),
                unsigned(h.subrange(4, 6), 16, 255),
            )
        }
    } else {
        let p = split_on(s, ',');
        if p.len() != 3 {
            None
        } else {
            three(
                unsigned(trim(p[0]), 10, 255),
                unsigned(trim(p[1]), 10, 255),
                unsigned(trim(p[2]), 10, 255),
            )
        }
    }
}

fn make(a: Option<u64>, b: Option<u64>, c: Option<u64>) -> (r: Option<Rgb>)
    requires
        a matches Some(v) ==> v <= 255,
        b matches Some(v) ==> v <= 255,
        c matches Some(v) ==> v <= 255,
    ensures
        r == (match (a, b, c) {
            (Some(x), Some(y), Some(z)) => Some(Rgb(x as u8, y as u8, z as u8)),
            _ => None,
        }),
{
    match (a, b, c) {
        (Some(x), Some(y), Some(z)) => Some(Rgb(x as u8, y as u8, z as u8)),
        _ => None,
    }
}

/// Reads a colour.
pub fn parse_rgb(s: &str) -> (r: Option<Rgb>)
    ensures
        r == colour_of(s@),
{
    proof {
        reveal_strlit("#");
    }
    if begins(s, "#") {
        let n: usize = s.unicode_len();
        assert(s@.skip(1).len() == s@.len() - 1);
        if n != 7 {
            return None;
        }
        assert(s@.skip(1).subrange(0, 2) =~= s@.subrange(1, 3));
        assert(s@.skip(1).subrange(2, 4) =~= s@.subrange(3, 5));
        assert(s@.skip(1).subrange(4, 6) =~= s@.subrange(5, 7));
        return make(
            read_unsigned(s.substring_char(1, 3), 16, 255),
            read_unsigned(s.substring_char(3, 5), 16, 255),
            read_unsigned(s.substring_char(5, 7), 16, 255),
        );
    }
    let p = pieces(s, ',');
    let ghost v = views(p@);
    assert(v.len() == p@.len());
    if p.len() != 3 {
        return None;
    }
    assert(v[0] == p@[0]@ && v[1] == p@[1]@ && v[2] == p@[2]@);
    make(
        read_unsigned(trimmed(p[0].as_str()).as_str(), 10, 255),
        read_unsigned(trimmed(p[1].as_str()).as_str(), 10, 255),
        read_unsigned(trimmed(p[2].as_str()).as_str(), 10, 255),
    )
}

/// The settings after one more line. Comments, lines that set nothing, other keys and values that
/// cannot be read change nothing.
pub open spec fn with_line(cfg: LedConfig, line: Seq<char>) -> LedConfig {
    let l = trim(line);
    let at = first(l, '=') as int;
    if l.len() == 0 || starts_with(l, "#"@) || at >= l.len() {
        cfg
    } else {
        let k = trim(l.take(at));
        let v = unquoted(trim(l.skip(at + 1)), '"');
        if k == "status_color"@ {
            match colour_of(v) {
                Some(c) => LedConfig { status: c, ..cfg },
                None => cfg,
            }
        } else if k == "brightness"@ {
            match unsigned(v, 10, 255) {
                Some(n) => LedConfig { brightness_pct: (if n < 100 { n } else { 100 }) as u8, ..cfg },
                None => cfg,
            }
        } else if k == "white_balance"@ {
            match colour_of(v) {
                Some(c) => LedConfig { wb: c, ..cfg },
                None => cfg,
            }
        } else {
            cfg
        }
    }
}

/// The settings some lines make, one after the other.
pub open spec fn config_of(ls: Seq<Seq<char>>) -> LedConfig
    decreases ls.len(),
{
    if ls.len() == 0 { default_config() } else { with_line(config_of(ls.drop_last()), ls.last()) }
}

fn take_line(cfg: LedConfig, line: &str) -> (r: LedConfig)
    ensures
        r == with_line(cfg, line@),
{
    let l = trimmed(line);
    let s = l.as_str();
    if s.is_empty() || begins(s, "#") {
        return cfg;
    }
    let at: usize = match find_char(s, '=') {
        Some(at) => at,
        None => {
            return cfg;
        },
    };
    let n: usize = s.unicode_len();
    assert(l@.subrange(0, at as int) =~= l@.take(at as int));
    assert(l@.subrange(at + 1, n as int) =~= l@.skip(at + 1));
    let k = trimmed(s.substring_char(0, at));
    let v = unquote(trimmed(s.substring_char(at + 1, n)).as_str(), '"');
    if same_text(k.as_str(), "status_color") {
        match parse_rgb(v.as_str()) {
            Some(c) => LedConfig { status: c, brightness_pct: cfg.brightness_pct, wb: cfg.wb },
            None => cfg,
        }
    } else if same_text(k.as_str(), "brightness") {
        match read_unsigned(v.as_str(), 10, 255) {
            Some(b) => LedConfig { status: cfg.status, brightness_pct: if b < 100 { b as u8 } else { 100 }, wb: cfg.wb },
            None => cfg,
        }
    } else if same_text(k.as_str(), "white_balance") {
        match parse_rgb(v.as_str()) {
            Some(c) => LedConfig { status: cfg.status, brightness_pct: cfg.brightness_pct, wb: c },
            None => cfg,
        }
    } else {
        cfg
    }
}

impl Default for LedConfig {
    /// What the light is set up with where nothing else is said.
    fn default() -> (r: Self)
        ensures
            r == default_config(),
    {
        LedConfig { status: Rgb(0x4d, 0xd0, 0xe1), brightness_pct: 20, wb: Rgb(255, 190, 130) }
    }
}

impl LedConfig {
    /// The settings a file holds, or the defaults where there is no file.
    pub fn load(text: Option<&str>) -> (r: LedConfig)
        ensures
            r == (match text {
                Some(t) => config_of(lines(t@)),
                None => default_config(),
            }),
    {
        let mut cfg = LedConfig::default();
        let t = match text {
            Some(t) => t,
            None => {
                return cfg;
            },
        };
        let all = lines_of(t);
        let ghost ls = lines(t@);
        let mut i: usize = 0;
        assert(cfg == config_of(ls.take(0)));
        while i < all.len()
            invariant
                i <= all@.len(),
                ls == lines(t@),
                views(all@) == ls,
                cfg == config_of(ls.take(i as int)),
            decreases all@.len() - i,
        {
            assert(views(all@)[i as int] == all@[i as int]@);
            assert(ls.take(i + 1).drop_last() =~= ls.take(i as int));
            cfg = take_line(cfg, all[i].as_str());
            i += 1;
        }
        assert(ls.len() == all@.len());
        assert(ls.take(i as int) =~= ls);
        cfg
    }
}

/// Whatever a file says, the brightness stays within a hundred percent.
pub proof fn brightness_stays_in_range(ls: Seq<Seq<char>>)
    ensures
        config_of(ls).brightness_pct <= 100,
    decreases ls.len(),
{
    if ls.len() > 0 {
        brightness_stays_in_range(ls.drop_last());
        let l = trim(ls.last());
        unsigned_in_range(unquoted(trim(l.skip(first(l, '=') as int + 1)), '"'), 10, 255);
    }
}

/// What the light is to show.
#[derive(Clone, Copy, PartialEq, Eq, Structural, Debug)]
pub struct LedState {
    pub client: bool,
    pub bt_paging: bool,
    pub bt_connected: bool,
    pub iap2_active: bool,
    pub flash_mode: bool,
    /// Full white, to see the white balance.
    pub wbtest: bool,
}

/// Whether an entry of a forwarding table is a station behind a port: entries have sixteen bytes,
/// a port in the seventh and a mark for the bridge's own addresses in the eighth.
pub open spec fn station_at(fdb: Seq<u8>, k: int, port: int) -> bool {
    fdb[16 * k + 6] == port && fdb[16 * k + 7] == 0
}

/// Whether a station behind a port is in a forwarding table.
pub open spec fn has_station(fdb: Seq<u8>, port: int) -> bool {
    exists|k: int| 0 <= k < fdb.len() as int / 16 && #[trigger] station_at(fdb, k, port)
}

/// Whether a station is associated: one that is not the bridge's own stands behind the access
/// point's port. The port is written in hexadecimal.
pub fn wifi_client(port: &str, fdb: &[u8]) -> (r: bool)
    ensures
        r == (match unsigned(stripped(trim(port@), "0x"@), 16, 255) {
            Some(p) => has_station(fdb@, p),
            None => false,
        }),
{
    let t = strip_all(trimmed(port).as_str(), "0x");
    let p: u64 = match read_unsigned(t.as_str(), 16, 255) {
        Some(p) => p,
        None => {
            return false;
        },
    };
    let n: usize = fdb.len() / 16;
    let mut k: usize = 0;
    while k < n
        invariant
            k <= n,
            n == fdb@.len() as int / 16,
            fdb@.len() == fdb.len(),
            p <= 255,
            unsigned(stripped(trim(port@), "0x"@), 16, 255) == Some(p as int),
            forall|j: int| 0 <= j < k ==> !(#[trigger] station_at(fdb@, j, p as int)),
        decreases n - k,
    {
        if fdb[16 * k + 6] as u64 == p && fdb[16 * k + 7] == 0 {
            assert(station_at(fdb@, k as int, p as int));
            return true;
        }
        k += 1;
    }
    false
}

/// A channel times a gain, in parts of 255.
pub open spec fn dimmed(c: u8, gain: u8) -> u8 {
    (c * gain / 255) as u8
}

/// A colour dimmed on all channels alike.
pub open spec fn scaled(c: Rgb, gain: u8) -> Rgb {
    Rgb(dimmed(c.0, gain), dimmed(c.1, gain), dimmed(c.2, gain))
}

/// A colour dimmed on each channel by its own gain.
pub open spec fn balanced(c: Rgb, wb: Rgb) -> Rgb {
    Rgb(dimmed(c.0, wb.0), dimmed(c.1, wb.1), dimmed(c.2, wb.2))
}

fn dim(c: u8, gain: u8) -> (r: u8)
    ensures
        r == dimmed(c, gain),
        r <= c,
{
    assert(0 <= c * gain <= c * 255 <= 65025) by (nonlinear_arith)
        requires c <= 255, gain <= 255;
    (c as u16 * gain as u16 / 255) as u8
}

/// Per-channel white balance.
pub fn balance(c: Rgb, wb: Rgb) -> (r: Rgb)
    ensures
        r == balanced(c, wb),
{
    Rgb(dim(c.0, wb.0), dim(c.1, wb.1), dim(c.2, wb.2))
}

/// Brightness over all channels.
pub fn scale(c: Rgb, brightness: u8) -> (r: Rgb)
    ensures
        r == scaled(c, brightness),
{
    Rgb(dim(c.0, brightness), dim(c.1, brightness), dim(c.2, brightness))
}

/// Dimming never makes a channel brighter.
pub proof fn dimming_never_brightens(c: u8, gain: u8)
    ensures
        dimmed(c, gain) <= c,
        gain == 255 ==> dimmed(c, gain) == c,
        gain == 0 ==> dimmed(c, gain) == 0,
{
    assert(0 <= c * gain <= c * 255) by (nonlinear_arith)
        requires c <= 255, gain <= 255;
}

/// The colour a state asks for at a tick, before brightness and balance. The highest of the
/// states that hold wins: flashing, a running session, a connection, paging, a client, waiting.
pub open spec fn base_colour(state: LedState, cfg: LedConfig, tick: u64) -> Rgb {
    let slow_on = (tick / 12) % 2 == 0;
    let blitz_on = tick % 10 < 4;
    if state.wbtest {
        Rgb(255, 255, 255)
    } else if state.flash_mode {
        if slow_on { Rgb(255, 0, 0) } else { blue() }
    } else if state.iap2_active {
        off()
    } else if state.bt_connected {
        blue()
    } else if state.bt_paging {
        if blitz_on { blue() } else { cfg.status }
    } else if state.client {
        cfg.status
    } else {
        if slow_on { cfg.status } else { off() }
    }
}

/// The colour of the pixel at a tick.
pub open spec fn shown(state: LedState, cfg: LedConfig, tick: u64) -> Rgb {
    if cfg.brightness_pct == 0 {
        off()
    } else {
        balanced(scaled(base_colour(state, cfg, tick), (cfg.brightness_pct * 255 / 100) as u8), cfg.wb)
    }
}

/// Decides the colour of the pixel at a tick.
pub fn render(state: &LedState, cfg: &LedConfig, tick: u64) -> (r: Rgb)
    requires
        cfg.brightness_pct <= 100,
    ensures
        r == shown(*state, *cfg, tick),
{
    if cfg.brightness_pct == 0 {
        return Rgb(0, 0, 0);
    }
    let gain: u8 = (cfg.brightness_pct as u16 * 255 / 100) as u8;
    if state.wbtest {
        return balance(scale(Rgb(255, 255, 255), gain), cfg.wb);
    }
    let slow_on = (tick / (TICK_HZ / 4)) % 2 == 0;
    let blitz_on = (tick % (TICK_HZ / 5)) < (TICK_HZ / 12);
    let base = if state.flash_mode {
        if slow_on { Rgb(255, 0, 0) } else { Rgb(0, 0, 255) }
    } else if state.iap2_active {
        Rgb(0, 0, 0)
    } else if state.bt_connected {
        Rgb(0, 0, 255)
    } else if state.bt_paging {
        if blitz_on { Rgb(0, 0, 255) } else { cfg.status }
    } else if state.client {
        cfg.status
    } else {
        if slow_on { cfg.status } else { Rgb(0, 0, 0) }
    };
    balance(scale(base, gain), cfg.wb)
}

/// At no brightness the light is off, whatever the state. A running session keeps it dark too,
/// unless the stick is being flashed or the balance is tested.
pub proof fn dark_when_asked(state: LedState, cfg: LedConfig, tick: u64)
    ensures
        cfg.brightness_pct == 0 ==> shown(state, cfg, tick) == off(),
        state.iap2_active && !state.flash_mode && !state.wbtest ==> shown(state, cfg, tick) == off(),
{
    assert(0 * (cfg.brightness_pct * 255 / 100) == 0);
    assert forall|g: u8| #[trigger] dimmed(0, g) == 0 by {
        assert(0 * g == 0);
    }
}

/// One bit as the four the pixel reads: a short pulse for zero, a long one for one.
pub open spec fn symbol(b: u8, place: int) -> u8 {
    if b as int / place % 2 == 1 { 14 } else { 8 }
}

/// One byte as the four the pixel reads, the highest bit first.
pub open spec fn pattern(b: u8) -> Seq<u8> {
    seq![
        (symbol(b, 128) * 16 + symbol(b, 64)) as u8,
        (symbol(b, 32) * 16 + symbol(b, 16)) as u8,
        (symbol(b, 8) * 16 + symbol(b, 4)) as u8,
        (symbol(b, 2) * 16 + symbol(b, 1)) as u8,
    ]
}

/// Encodes one byte, a zero as `1000` and a one as `1110`.
pub fn encode_byte(b: u8) -> (out: [u8; 4])
    ensures
        out@ == pattern(b),
{
    let s7: u8 = if b / 128 % 2 == 1 { 14 } else { 8 };
    let s6: u8 = if b / 64 % 2 == 1 { 14 } else { 8 };
    let s5: u8 = if b / 32 % 2 == 1 { 14 } else { 8 };
    let s4: u8 = if b / 16 % 2 == 1 { 14 } else { 8 };
    let s3: u8 = if b / 8 % 2 == 1 { 14 } else { 8 };
    let s2: u8 = if b / 4 % 2 == 1 { 14 } else { 8 };
    let s1: u8 = if b / 2 % 2 == 1 { 14 } else { 8 };
    let s0: u8 = if b / 1 % 2 == 1 { 14 } else { 8 };
    let out = [s7 * 16 + s6, s5 * 16 + s4, s3 * 16 + s2, s1 * 16 + s0];
    assert(out@ =~= pattern(b));
    out
}

/// The pixel's bytes in its own order: green, red, blue.
pub open spec fn pixel_bytes(c: Rgb) -> Seq<u8> {
    pattern(c.1) + pattern(c.0) + pattern(c.2)
}

/// Encodes one pixel.
pub fn encode_pixel(c: Rgb) -> (out: Vec<u8>)
    ensures
        out@ == pixel_bytes(c),
        out@.len() == 12,
{
    let mut out: Vec<u8> = Vec::new();
    crate::bytes::append(&mut out, &encode_byte(c.1));
    assert(out@ =~= pattern(c.1));
    crate::bytes::append(&mut out, &encode_byte(c.0));
    crate::bytes::append(&mut out, &encode_byte(c.2));
    out
}

/// What is written for one pixel: a gap that resets the chip, the pixel, and a gap that latches
/// it.
pub fn pixel_frame(c: Rgb) -> (out: Vec<u8>)
    ensures
        out@ == zeros(GAP as nat) + pixel_bytes(c) + zeros(GAP as nat),
        out@.len() == 62,
{
    let mut out: Vec<u8> = Vec::new();
    crate::bytes::append_zeros(&mut out, GAP);
    assert(out@ =~= zeros(GAP as nat));
    crate::bytes::append(&mut out, &encode_pixel(c));
    crate::bytes::append_zeros(&mut out, GAP);
    out
}

/// The bit four pixel bits stand for.
pub open spec fn bit_of(four: int) -> int {
    if four == 14 { 1 } else { 0 }
}

/// The byte a pattern stands for.
pub open spec fn decoded(p: Seq<u8>) -> int {
    bit_of(p[0] as int / 16) * 128 + bit_of(p[0] as int % 16) * 64 + bit_of(p[1] as int / 16) * 32
        + bit_of(p[1] as int % 16) * 16 + bit_of(p[2] as int / 16) * 8 + bit_of(p[2] as int % 16) * 4
        + bit_of(p[3] as int / 16) * 2 + bit_of(p[3] as int % 16)
}

proof fn halves(b: u8, hi: int, lo: int)
    ensures
        ({
            let x = (symbol(b, hi) * 16 + symbol(b, lo)) as u8;
            &&& bit_of(x as int / 16) == b as int / hi % 2
            &&& bit_of(x as int % 16) == b as int / lo % 2
        }),
        0 <= b as int / hi % 2 <= 1,
        0 <= b as int / lo % 2 <= 1,
{
}

/// Every byte can be told from its pattern, so no two colours look the same to the chip.
pub proof fn a_pattern_stands_for_its_byte(b: u8)
    ensures
        decoded(pattern(b)) == b,
{
    halves(b, 128, 64);
    halves(b, 32, 16);
    halves(b, 8, 4);
    halves(b, 2, 1);
    let n = b as int;
    assert(n / 4 == n / 2 / 2 && n / 8 == n / 4 / 2 && n / 16 == n / 8 / 2);
    assert(n / 32 == n / 16 / 2 && n / 64 == n / 32 / 2 && n / 128 == n / 64 / 2);
}

/// The code of a write ioctl: direction, size, magic and number.
pub open spec fn write_code(magic: u8, nr: u8, size: u32) -> int {
    0x4000_0000 + (size % 0x4000) * 0x1_0000 + magic * 0x100 + nr
}

/// The code of a write ioctl.
pub fn _iow(magic: u8, nr: u8, size: u32) -> (r: u32)
    ensures
        r == write_code(magic, nr, size),
{
    0x4000_0000u32 + (size % 0x4000) * 0x1_0000 + magic as u32 * 0x100 + nr as u32
}

/// The two lights of the other dongle at a tick: flashing alternates them; else blue shows a
/// connection, or blinks while a phone is paged, and red shows a client, or blinks while none is
/// there.
pub fn lights(tick: u64, flash_mode: bool, bt_connected: bool, bt_paging: bool, client: bool) -> (r: (bool, bool))
    ensures
        ({
            let slow_on = (tick / 4) % 2 == 0;
            r == (if flash_mode {
                (slow_on, !slow_on)
            } else {
                (client || slow_on, bt_connected || (bt_paging && slow_on))
            })
        }),
{
    let slow_on = (tick / 4) % 2 == 0;
    if flash_mode {
        (slow_on, !slow_on)
    } else {
        (client || slow_on, bt_connected || (bt_paging && slow_on))
    }
}

/// Whether the clients are counted again at a tick.
pub fn counts_clients(tick: u64) -> (r: bool)
    ensures
        r == (tick % 8 == 0),
{
    tick % 8 == 0
}

/// What is written to a pin. The lights are on when it is low.
pub fn pin_value(on: bool) -> (r: &'static str)
    ensures
        r@ == (if on { "0"@ } else { "1"@ }),
{
    if on { "0" } else { "1" }
}

/// A colour that is written with a hash mark or with commas is read back.
pub proof fn a_colour_reads_back(r: u8, g: u8, b: u8)
    ensures
        colour_of(seq!['#'] + crate::text::hex2(r) + crate::text::hex2(g) + crate::text::hex2(b)) == Some(Rgb(r, g, b)),
        colour_of(crate::text::dec(r as nat) + seq![','] + (crate::text::dec(g as nat) + seq![',']
            + crate::text::dec(b as nat))) == Some(Rgb(r, g, b)),
{
    reveal_strlit("#");
    assert("#"@ =~= seq!['#']);
    let s = seq!['#'] + crate::text::hex2(r) + crate::text::hex2(g) + crate::text::hex2(b);
    let h = s.skip(1);
    assert(s.take(1) =~= "#"@);
    assert(h.subrange(0, 2) =~= crate::text::hex2(r));
    assert(h.subrange(2, 4) =~= crate::text::hex2(g));
    assert(h.subrange(4, 6) =~= crate::text::hex2(b));
    two_digits(r);
    two_digits(g);
    two_digits(b);
    assert(h.len() == 6);
    let (x, y, z) = (crate::text::dec(r as nat), crate::text::dec(g as nat), crate::text::dec(b as nat));
    let tail = y + seq![','] + z;
    let t = x + seq![','] + tail;
    plain_number(r);
    plain_number(g);
    plain_number(b);
    crate::text::a_piece_is_split_off(x, tail, ',');
    crate::text::a_piece_is_split_off(y, z, ',');
    crate::text::a_piece_is_split_off(z, Seq::empty(), ',');
    assert(split_on(t, ',') =~= seq![x, y, z]);
    assert(t.take(1)[0] == x[0]);
    assert(!starts_with(t, "#"@));
}

proof fn two_digits(b: u8)
    ensures
        unsigned(crate::text::hex2(b), 16, 255) == Some(b as int),
{
    let s = crate::text::hex2(b);
    crate::text::digit_reads(b as int / 16);
    crate::text::digit_reads(b as int % 16);
    assert(s.drop_last().drop_last() =~= Seq::<char>::empty());
    assert(s.drop_last().last() == s[0]);
    assert(crate::text::digits_value(s.drop_last().drop_last(), 16) == Some(0int));
    assert(crate::text::digits_value(s.drop_last(), 16) == Some(b as int / 16));
    assert(crate::text::digits_value(s, 16) == Some(b as int));
}

proof fn plain_number(n: u8)
    ensures
        ({
            let s = crate::text::dec(n as nat);
            &&& s.len() > 0
            &&& s[0] != '#'
            &&& !s.contains(',')
            &&& trim(s) == s
            &&& unsigned(s, 10, 255) == Some(n as int)
            &&& s[0] != '"' && s.last() != '"'
            &&& !crate::text::is_space(s[0]) && !crate::text::is_space(s.last())
        }),
{
    let s = crate::text::dec(n as nat);
    crate::text::a_number_reads_back(n as nat, 10);
    assert forall|k: int| 0 <= k < s.len() implies crate::text::digit_value(#[trigger] s[k]) is Some
        && !crate::text::is_space(s[k]) by {
        crate::text::a_number_is_made_of_digits(n as nat, 10, k);
    }
    assert(crate::text::digit_value(s[0]) is Some);
    assert(crate::text::digit_value(s[s.len() - 1]) is Some);
    crate::text::untouched(s);
}

/// A line sets the brightness, up to a hundred, and leaves the rest.
pub proof fn a_line_sets_the_brightness(cfg: LedConfig, n: u8)
    ensures
        with_line(cfg, "brightness"@ + seq!['='] + crate::text::dec(n as nat))
            == (LedConfig { brightness_pct: if n < 100 { n } else { 100 }, ..cfg }),
{
    let key = "brightness"@;
    let number = crate::text::dec(n as nat);
    reveal_strlit("brightness");
    reveal_strlit("status_color");
    assert("brightness"@.len() == 10 && "status_color"@.len() == 12);
    assert(!key.contains('='));
    plain_number(n);
    a_line_falls_apart(key, number);
    unquoted_value(number);
}

/// A line sets the colour of the light or the balance, by its key, and leaves the rest. The colour may
/// stand in quotes.
pub proof fn a_line_sets_a_colour(cfg: LedConfig, r: u8, g: u8, b: u8)
    ensures
        ({
            let colour = seq!['#'] + crate::text::hex2(r) + crate::text::hex2(g) + crate::text::hex2(b);
            let quoted = seq!['"'] + colour + seq!['"'];
            &&& with_line(cfg, "status_color"@ + seq!['='] + colour) == LedConfig { status: Rgb(r, g, b), ..cfg }
            &&& with_line(cfg, "status_color"@ + seq!['='] + quoted) == LedConfig { status: Rgb(r, g, b), ..cfg }
            &&& with_line(cfg, "white_balance"@ + seq!['='] + colour) == LedConfig { wb: Rgb(r, g, b), ..cfg }
            &&& with_line(cfg, "white_balance"@ + seq!['='] + quoted) == LedConfig { wb: Rgb(r, g, b), ..cfg }
        }),
{
    let colour = seq!['#'] + crate::text::hex2(r) + crate::text::hex2(g) + crate::text::hex2(b);
    let quoted = seq!['"'] + colour + seq!['"'];
    colour_plain(r, g, b);
    a_colour_reads_back(r, g, b);
    sets_colour(cfg, colour, colour, Rgb(r, g, b));
    sets_colour(cfg, quoted, colour, Rgb(r, g, b));
}

proof fn colour_plain(r: u8, g: u8, b: u8)
    ensures
        ({
            let colour = seq!['#'] + crate::text::hex2(r) + crate::text::hex2(g) + crate::text::hex2(b);
            let quoted = seq!['"'] + colour + seq!['"'];
            &&& unquoted(colour, '"') == colour
            &&& unquoted(quoted, '"') == colour
            &&& trim(colour) == colour
            &&& trim(quoted) == quoted
            &&& !crate::text::is_space(colour.last())
            &&& !crate::text::is_space(quoted.last())
        }),
{
    let colour = seq!['#'] + crate::text::hex2(r) + crate::text::hex2(g) + crate::text::hex2(b);
    let quoted = seq!['"'] + colour + seq!['"'];
    crate::text::digit_reads(b as int % 16);
    assert(colour.last() == crate::text::hex2(b)[1]);
    assert(crate::text::digit_value('"') is None);
    assert(colour.last() != '"');
    assert(colour[0] == '#');
    unquoted_value(colour);
    let once = quoted.skip(1);
    assert(once.drop_last() =~= colour);
    assert(once[0] == '#');
    assert(once.last() == '"');
    assert(unquoted(once, '"') == unquoted(once.drop_last(), '"'));
    assert(quoted[0] == '"');
    assert(!crate::text::is_space('"'));
    assert(!crate::text::is_space('#'));
    crate::text::untouched(quoted);
    crate::text::untouched(colour);
}

proof fn sets_colour(cfg: LedConfig, value: Seq<char>, colour: Seq<char>, c: Rgb)
    requires
        value.len() > 0,
        !crate::text::is_space(value.last()),
        trim(value) == value,
        unquoted(value, '"') == colour,
        colour_of(colour) == Some(c),
    ensures
        with_line(cfg, "status_color"@ + seq!['='] + value) == (LedConfig { status: c, ..cfg }),
        with_line(cfg, "white_balance"@ + seq!['='] + value) == (LedConfig { wb: c, ..cfg }),
{
    reveal_strlit("brightness");
    reveal_strlit("status_color");
    reveal_strlit("white_balance");
    assert("brightness"@.len() == 10 && "status_color"@.len() == 12 && "white_balance"@.len() == 13);
    assert(!"status_color"@.contains('='));
    assert(!"white_balance"@.contains('='));
    a_line_falls_apart("status_color"@, value);
    a_line_falls_apart("white_balance"@, value);
}

/// A line with another key, a comment and an empty line set nothing.
pub proof fn other_lines_set_nothing(cfg: LedConfig, key: Seq<char>, value: Seq<char>)
    requires
        key.len() > 0,
        !key.contains('='),
        key[0] != '#',
        !crate::text::is_space(key[0]),
        !crate::text::is_space(key.last()),
        key != "brightness"@,
        key != "status_color"@,
        key != "white_balance"@,
        value.len() == 0 || !crate::text::is_space(value.last()),
    ensures
        with_line(cfg, key + seq!['='] + value) == cfg,
        with_line(cfg, seq!['#'] + value) == cfg,
        with_line(cfg, Seq::empty()) == cfg,
        with_line(cfg, key) == cfg,
{
    a_line_falls_apart(key, value);
    let c = seq!['#'] + value;
    if value.len() > 0 {
        assert(c.last() == value.last());
    }
    assert(!crate::text::is_space('#'));
    crate::text::untouched(c);
    reveal_strlit("#");
    assert(c.take(1) =~= "#"@);
    crate::text::untouched(key);
    assert forall|k: int| 0 <= k < key.len() implies key[k] != '=' by {
        assert(key.contains(key[k]));
    }
    crate::text::first_at(key, '=', key.len() as int);
}

proof fn unquoted_value(v: Seq<char>)
    requires
        v.len() > 0,
        v[0] != '"',
        v.last() != '"',
    ensures
        unquoted(v, '"') == v,
{
}

proof fn a_line_falls_apart(key: Seq<char>, value: Seq<char>)
    requires
        key.len() > 0,
        !key.contains('='),
        key[0] != '#',
        !crate::text::is_space(key[0]),
        !crate::text::is_space(key.last()),
        value.len() == 0 || !crate::text::is_space(value.last()),
    ensures
        ({
            let line = key + seq!['='] + value;
            let n = key.len() as int;
            &&& trim(line) == line
            &&& line.len() > 0
            &&& !starts_with(line, "#"@)
            &&& first(line, '=') == n
            &&& n < line.len()
            &&& trim(line.take(n)) == key
            &&& line.skip(n + 1) == value
        }),
{
    let line = key + seq!['='] + value;
    let n = key.len() as int;
    reveal_strlit("#");
    assert(line[0] == key[0]);
    assert(!crate::text::is_space('='));
    if value.len() > 0 {
        assert(line.last() == value.last());
    } else {
        assert(line.last() == '=');
    }
    crate::text::untouched(line);
    assert forall|k: int| 0 <= k < n implies line[k] != '=' by {
        assert(line[k] == key[k]);
        assert(key.contains(key[k]));
    }
    assert(line[n] == '=');
    crate::text::first_at(line, '=', n);
    assert(line.take(n) =~= key);
    crate::text::untouched(key);
    assert(line.skip(n + 1) =~= value);
    assert(line.take(1)[0] == key[0]);
}

/// A channel is dimmed to the whole number of 255ths below, each channel by its own gain and by no other.
pub proof fn each_channel_is_dimmed_alone(c: Rgb, wb: Rgb, gain: u8)
    ensures
        255 * balanced(c, wb).0 <= c.0 * wb.0 < 255 * balanced(c, wb).0 + 255,
        255 * balanced(c, wb).1 <= c.1 * wb.1 < 255 * balanced(c, wb).1 + 255,
        255 * balanced(c, wb).2 <= c.2 * wb.2 < 255 * balanced(c, wb).2 + 255,
        scaled(c, gain) == balanced(c, Rgb(gain, gain, gain)),
{
    dims(c.0, wb.0);
    dims(c.1, wb.1);
    dims(c.2, wb.2);
}

proof fn dims(c: u8, gain: u8)
    ensures
        255 * dimmed(c, gain) <= c * gain < 255 * dimmed(c, gain) + 255,
{
    assert(0 <= c * gain <= 255 * 255) by (nonlinear_arith)
        requires
            0 <= c <= 255,
            0 <= gain <= 255,
    ;
}

/// What the light shows at full brightness without a balance: white for the test, red and blue in turns
/// while flashing, nothing in a session, blue for a connection, blue flashes on its own colour while a
/// phone is paged, its own colour for a client, and its own colour on and off while waiting. A turn takes
/// twelve ticks, a flash four of ten.
pub proof fn what_the_light_shows(state: LedState, cfg: LedConfig, tick: u64)
    requires
        cfg.brightness_pct == 100,
        cfg.wb == Rgb(255, 255, 255),
    ensures
        ({
            let r = shown(state, cfg, tick);
            let first_half = tick % 24 < 12;
            &&& state.wbtest ==> r == Rgb(255, 255, 255)
            &&& !state.wbtest && state.flash_mode ==> r == (if first_half { Rgb(255, 0, 0) } else { Rgb(0, 0, 255) })
            &&& !state.wbtest && !state.flash_mode && state.iap2_active ==> r == Rgb(0, 0, 0)
            &&& !state.wbtest && !state.flash_mode && !state.iap2_active ==> {
                &&& state.bt_connected ==> r == Rgb(0, 0, 255)
                &&& !state.bt_connected && state.bt_paging ==> r == (if tick % 10 < 4 { Rgb(0, 0, 255) } else { cfg.status })
                &&& !state.bt_connected && !state.bt_paging && state.client ==> r == cfg.status
                &&& !state.bt_connected && !state.bt_paging && !state.client ==> r
                    == (if first_half { cfg.status } else { Rgb(0, 0, 0) })
            }
        }),
{
    let b = base_colour(state, cfg, tick);
    assert((100 * 255 / 100) as u8 == 255);
    undimmed(b.0);
    undimmed(b.1);
    undimmed(b.2);
    assert(((tick / 12) % 2 == 0) == (tick % 24 < 12));
}

proof fn undimmed(c: u8)
    ensures
        dimmed(c, 255) == c,
{
    dimming_never_brightens(c, 255);
}

/// What the light shows at any other brightness and balance is that colour dimmed by both: never
/// brighter, and the same for states that ask for the same colour.
pub proof fn the_light_is_dimmed(state: LedState, cfg: LedConfig, tick: u64)
    requires
        0 < cfg.brightness_pct <= 100,
    ensures
        ({
            let full = LedConfig { brightness_pct: 100, wb: Rgb(255, 255, 255), ..cfg };
            shown(state, cfg, tick) == balanced(scaled(shown(state, full, tick), (cfg.brightness_pct * 255 / 100) as u8), cfg.wb)
        }),
{
    let full = LedConfig { brightness_pct: 100, wb: Rgb(255, 255, 255), ..cfg };
    let b = base_colour(state, cfg, tick);
    assert(base_colour(state, full, tick) == b);
    assert((100 * 255 / 100) as u8 == 255);
    undimmed(b.0);
    undimmed(b.1);
    undimmed(b.2);
}

/// Each bit of a byte stands as four bits, `1110` for a one and `1000` for a zero, the highest first, and a
/// pixel is its green, its red and its blue byte.
pub proof fn how_a_pixel_is_written(c: Rgb, b: u8, i: int)
    requires
        0 <= i < 4,
    ensures
        pattern(b).len() == 4,
        pattern(b)[i] == 0x88 + (if i == 0 {
            0x60 * (b as int / 128 % 2) + 6 * (b as int / 64 % 2)
        } else if i == 1 {
            0x60 * (b as int / 32 % 2) + 6 * (b as int / 16 % 2)
        } else if i == 2 {
            0x60 * (b as int / 8 % 2) + 6 * (b as int / 4 % 2)
        } else {
            0x60 * (b as int / 2 % 2) + 6 * (b as int % 2)
        }),
        pixel_bytes(c).len() == 12,
        pixel_bytes(c)[i] == pattern(c.1)[i],
        pixel_bytes(c)[4 + i] == pattern(c.0)[i],
        pixel_bytes(c)[8 + i] == pattern(c.2)[i],
{
    assert(b as int / 1 == b as int);
}

/// An entry of a forwarding table makes a client where it names the port and is not the bridge's own, wherever
/// it stands.
pub proof fn a_station_is_seen_anywhere(front: Seq<u8>, entry: Seq<u8>, back: Seq<u8>, port: int)
    requires
        front.len() % 16 == 0,
        entry.len() == 16,
    ensures
        has_station(front + entry + back, port) <==> has_station(front, port) || has_station(back, port)
            || (entry[6] == port && entry[7] == 0),
        !has_station(Seq::empty(), port),
{
    let s = front + entry + back;
    let m = front.len() as int / 16;
    assert(front.len() == 16 * m);
    assert(s.len() as int / 16 == m + 1 + back.len() as int / 16);
    if has_station(front, port) {
        let k = choose|k: int| 0 <= k < front.len() as int / 16 && #[trigger] station_at(front, k, port);
        assert(station_at(s, k, port));
    }
    if has_station(back, port) {
        let k = choose|k: int| 0 <= k < back.len() as int / 16 && #[trigger] station_at(back, k, port);
        assert(s[16 * (m + 1 + k) + 6] == back[16 * k + 6]);
        assert(s[16 * (m + 1 + k) + 7] == back[16 * k + 7]);
        assert(station_at(s, m + 1 + k, port));
    }
    if entry[6] == port && entry[7] == 0 {
        assert(s[16 * m + 6] == entry[6] && s[16 * m + 7] == entry[7]);
        assert(station_at(s, m, port));
    }
    if has_station(s, port) {
        let k = choose|k: int| 0 <= k < s.len() as int / 16 && #[trigger] station_at(s, k, port);
        if k < m {
            assert(station_at(front, k, port));
        } else if k == m {
            assert(s[16 * m + 6] == entry[6] && s[16 * m + 7] == entry[7]);
        } else {
            let q = k - m - 1;
            assert(s[16 * k + 6] == back[16 * q + 6]);
            assert(s[16 * k + 7] == back[16 * q + 7]);
            assert(station_at(back, q, port));
        }
    }
}

/// What the two lights of the other dongle show: turns of four ticks. While flashing one of the two is on,
/// each in its turn. Else the first is steady with a client and blinks without, and the second is steady with
/// a connection, blinks while a phone is paged and is dark otherwise.
pub proof fn what_the_two_lights_show(tick: u64, bt_connected: bool, bt_paging: bool, client: bool, flash_mode: bool, r: (bool, bool))
    requires
        call_ensures(lights, (tick, flash_mode, bt_connected, bt_paging, client), r),
    ensures
        flash_mode ==> r == (tick % 8 < 4, tick % 8 >= 4),
        !flash_mode && client ==> r.0,
        !flash_mode && !client ==> r.0 == (tick % 8 < 4),
        !flash_mode && bt_connected ==> r.1,
        !flash_mode && !bt_connected && bt_paging ==> r.1 == (tick % 8 < 4),
        !flash_mode && !bt_connected && !bt_paging ==> !r.1,
{
    assert(((tick / 4) % 2 == 0) == (tick % 8 < 4));
}

} // verus!
