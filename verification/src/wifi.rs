//! Wireless link status from the output of `iw dev <interface> link`.
use vstd::prelude::*;
use vstd::utf8::{decode_utf8, valid_utf8};
use crate::format::{fill, format_output, pairs_view};
use crate::text::{
    chars_eq_str, chars_of, decimal, decimal_string, lines, parse_i32, parse_signed, split_lines,
    split_words, string_from_utf8, string_of, sub_chars, views, words,
};

verus! {

/// Signal strength in percent for a received power of `dbm`: 100 above -50 dBm,
/// 0 below -100 dBm, and two percent per dBm in between.
pub open spec fn spec_strength_percentage(dbm: int) -> int {
    if dbm > -50 {
        100
    } else if dbm < -100 {
        0
    } else {
        (dbm + 100) * 2
    }
}

/// Signal strength in percent for a received power of `dbm`.
pub fn strength_percentage(dbm: i32) -> (pct: i32)
    ensures
        pct == spec_strength_percentage(dbm as int),
        0 <= pct <= 100,
        -100 <= dbm <= -50 ==> pct == (dbm + 100) * 2,
        dbm > -50 ==> pct == 100,
        dbm < -100 ==> pct == 0,
{
    if dbm > -50 {
        return 100;
    }
    if dbm < -100 {
        return 0;
    }
    (dbm + 100) * 2
}

/// Between -100 dBm and -50 dBm each dBm more gives two percent more, from 0 at
/// -100 dBm to 100 at -50 dBm; every stronger signal gives 100 and every
/// weaker one 0.
pub proof fn lemma_strength_steps(dbm: int)
    ensures
        spec_strength_percentage(-100) == 0,
        spec_strength_percentage(-50) == 100,
        -100 <= dbm < -50 ==> spec_strength_percentage(dbm + 1) == spec_strength_percentage(dbm)
            + 2,
        dbm > -50 ==> spec_strength_percentage(dbm) == 100,
        dbm < -100 ==> spec_strength_percentage(dbm) == 0,
{
}

/// A stronger signal never gives a lower percentage.
pub proof fn lemma_strength_monotonic(a: int, b: int)
    requires
        a <= b,
    ensures
        spec_strength_percentage(a) <= spec_strength_percentage(b),
{
}

/// What the lines of `iw ... link` output tell, read as the tool reads them.
pub enum IwView {
    /// An SSID line was seen before a signal line that parsed.
    Link(Seq<char>, int),
    /// No usable SSID and signal.
    NoLink,
    /// A line without any word came first: the tool stops there, indexing its
    /// first word.
    BlankLine,
}

/// Reads lines in order: `SSID: <name>` records the name; the first
/// `signal: <value>` line ends the reading, with the link where the value
/// parses as an `i32` and a name was recorded before; any other line is
/// skipped.
pub open spec fn scan_iw(ls: Seq<Seq<char>>, ssid: Option<Seq<char>>) -> IwView
    decreases ls.len(),
{
    if ls.len() == 0 {
        IwView::NoLink
    } else {
        let w = words(ls[0]);
        if w.len() == 0 {
            IwView::BlankLine
        } else if w[0] == "SSID:"@ && w.len() > 1 {
            scan_iw(ls.drop_first(), Some(w[1]))
        } else if w[0] == "signal:"@ && w.len() > 1 {
            match (parse_signed(w[1], i32::MAX as nat), ssid) {
                (Some(d), Some(s)) => IwView::Link(s, d),
                _ => IwView::NoLink,
            }
        } else {
            scan_iw(ls.drop_first(), ssid)
        }
    }
}

/// The link that an `iw ... link` output describes.
pub enum IwLink {
    Connected { ssid: String, dbm: i32 },
    NotConnected,
    /// The output has a line without any word before its signal line; the tool
    /// fails on such output.
    Malformed,
}

/// Whether an exec outcome is what the spec reading gives.
pub open spec fn iw_link_matches(l: IwLink, v: IwView) -> bool {
    match v {
        IwView::Link(s, d) => l matches IwLink::Connected { ssid, dbm } && ssid@ == s && dbm == d,
        IwView::NoLink => l is NotConnected,
        IwView::BlankLine => l is Malformed,
    }
}

/// Reads the SSID and signal level from the output of `iw dev <interface> link`.
pub fn scan_iw_link(output: &str) -> (l: IwLink)
    ensures
        iw_link_matches(l, scan_iw(lines(output@), None)),
{
    let chars = chars_of(output);
    let ls = split_lines(&chars);
    let ghost lv = lines(output@);
    let n = ls.len();
    let mut ssid: Option<Vec<char>> = None;
    let mut i: usize = 0;
    assert(lv.skip(0) == lv);
    while i < n
        invariant
            n == ls@.len(),
            0 <= i <= n,
            lv == lines(output@),
            views(ls@) == lv,
            scan_iw(lv, None) == scan_iw(
                lv.skip(i as int),
                match ssid {
                    Some(s) => Some(s@),
                    None => None,
                },
            ),
        decreases n - i,
    {
        let ghost rest = lv.skip(i as int);
        assert(rest[0] == ls@[i as int]@);
        assert(rest.drop_first() == lv.skip(i + 1));
        let w = split_words(&ls[i]);
        assert(views(w@) == words(rest[0]));
        if w.len() == 0 {
            return IwLink::Malformed;
        }
        assert(w@[0]@ == words(rest[0])[0]);
        if chars_eq_str(&w[0], "SSID:") && w.len() > 1 {
            assert(w@[1]@ == words(rest[0])[1]);
            ssid = Some(sub_chars(&w[1], 0, w[1].len()));
            assert(ssid->0@ == w@[1]@);
        } else if chars_eq_str(&w[0], "signal:") && w.len() > 1 {
            assert(w@[1]@ == words(rest[0])[1]);
            return match (parse_i32(&w[1]), ssid) {
                (Some(d), Some(s)) => IwLink::Connected { ssid: string_of(&s), dbm: d },
                _ => IwLink::NotConnected,
            };
        }
        i = i + 1;
    }
    assert(lv.skip(n as int) == Seq::<Seq<char>>::empty());
    IwLink::NotConnected
}

/// Reads the link from the raw output of `iw dev <interface> link`: output that
/// is not valid UTF-8 tells of no link.
pub fn scan_iw_output(output: Vec<u8>) -> (l: IwLink)
    ensures
        valid_utf8(output@) ==> iw_link_matches(l, scan_iw(lines(decode_utf8(output@)), None)),
        !valid_utf8(output@) ==> l is NotConnected,
{
    match string_from_utf8(output) {
        Some(text) => scan_iw_link(text.as_str()),
        None => IwLink::NotConnected,
    }
}

/// The placeholders of a connected wireless link: interface, strength in
/// percent, SSID.
pub open spec fn wifi_pairs(interface: Seq<char>, ssid: Seq<char>, dbm: int) -> Seq<
    (Seq<char>, Seq<char>),
> {
    seq![
        ("%i"@, interface),
        ("%p"@, decimal(spec_strength_percentage(dbm) as nat)),
        ("%s"@, ssid),
    ]
}

/// The status line: `format_down` without a wireless interface that is up;
/// `format_up` as it stands where the link could not be read; else
/// `format_up` with `%i`, `%p` and `%s` filled in.
pub fn wifi_line(interface: Option<String>, link: IwLink, format_up: String, format_down: String) -> (line: String)
    requires
        !(link is Malformed),
    ensures
        line@ == match interface {
            None => format_down@,
            Some(i) => match link {
                IwLink::Connected { ssid, dbm } => fill(format_up@, wifi_pairs(i@, ssid@, dbm as int)),
                _ => format_up@,
            },
        },
{
    match interface {
        None => format_down,
        Some(i) => match link {
            IwLink::Connected { ssid, dbm } => {
                let pct = strength_percentage(dbm);
                let pct_text = decimal_string(pct as u128);
                let data = vec![
                    ("%i".to_owned(), i),
                    ("%p".to_owned(), pct_text),
                    ("%s".to_owned(), ssid),
                ];
                proof {
                    assert(pairs_view(data@) =~= wifi_pairs(i@, ssid@, dbm as int));
                    reveal_strlit("%i");
                    reveal_strlit("%p");
                    reveal_strlit("%s");
                    let ps = pairs_view(data@);
                    assert(ps[0].0[1] == 'i' && ps[1].0[1] == 'p' && ps[2].0[1] == 's');
                    assert forall|a: int, b: int| 0 <= a < b < ps.len() implies #[trigger] ps[a].0 != #[trigger] ps[b].0 by {
                        assert(ps[a].0[1] != ps[b].0[1]);
                    }
                }
                format_output(data, format_up)
            },
            _ => format_up,
        },
    }
}

} // verus!
