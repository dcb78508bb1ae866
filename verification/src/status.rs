//! Status lines of the simpler tools: memory, disk, wired network, battery and
//! pending package updates.
use vstd::prelude::*;
use crate::format::{fill, format_bytes, format_output, pairs_view, spec_format_bytes};
use crate::text::{
    chars_eq_str, chars_of, decimal, decimal_string, digits_value, lemma_decimal_reads_back, lines, parse_u64, parse_unsigned,
    split_lines, split_words, string_from_utf8_lossy, string_of, trim, trim_str, utf8_lossy, views,
    words,
};

verus! {

// ---------------------------------------------------------------------------
// Memory
// ---------------------------------------------------------------------------

/// What the lines of `/proc/meminfo` tell, read as the tool reads them.
pub enum MemView {
    /// Total and available memory in bytes.
    Values(nat, nat),
    /// A `MemTotal:` or `MemAvailable:` line is missing or never parsed.
    Missing,
    /// A parsed value times 1024 does not fit in a `u64`: the tool stops there.
    Overflow,
}

/// Reads lines in order, skipping those with fewer than two words: a line
/// `MemTotal: <n> ...` sets the total to `n * 1024` and a line
/// `MemAvailable: <n> ...` the available memory, where `n` parses as a `u64`;
/// later lines override earlier ones.
pub open spec fn scan_meminfo(ls: Seq<Seq<char>>, total: Option<nat>, avail: Option<nat>) -> MemView
    decreases ls.len(),
{
    if ls.len() == 0 {
        match (total, avail) {
            (Some(t), Some(a)) => MemView::Values(t, a),
            _ => MemView::Missing,
        }
    } else {
        let w = words(ls[0]);
        let rest = ls.drop_first();
        if w.len() < 2 {
            scan_meminfo(rest, total, avail)
        } else if w[0] == "MemTotal:"@ {
            match parse_unsigned(w[1], u64::MAX as nat) {
                Some(m) => if m * 1024 > u64::MAX {
                    MemView::Overflow
                } else {
                    scan_meminfo(rest, Some(m * 1024), avail)
                },
                None => scan_meminfo(rest, total, avail),
            }
        } else if w[0] == "MemAvailable:"@ {
            match parse_unsigned(w[1], u64::MAX as nat) {
                Some(m) => if m * 1024 > u64::MAX {
                    MemView::Overflow
                } else {
                    scan_meminfo(rest, total, Some(m * 1024))
                },
                None => scan_meminfo(rest, total, avail),
            }
        } else {
            scan_meminfo(rest, total, avail)
        }
    }
}

/// Total and available memory as `/proc/meminfo` gives them.
pub enum MemInfo {
    Values { total: u64, available: u64 },
    Missing,
    /// A value in kibibytes does not fit in a `u64` once counted in bytes; the
    /// tool fails on such input.
    Overflow,
}

pub open spec fn mem_info_matches(m: MemInfo, v: MemView) -> bool {
    match v {
        MemView::Values(t, a) => m matches MemInfo::Values { total, available } && total == t
            && available == a,
        MemView::Missing => m is Missing,
        MemView::Overflow => m is Overflow,
    }
}

/// Reads total and available memory, in bytes, from `/proc/meminfo` text.
pub fn parse_meminfo(content: &str) -> (m: MemInfo)
    ensures
        mem_info_matches(m, scan_meminfo(lines(content@), None, None)),
{
    let chars = chars_of(content);
    let ls = split_lines(&chars);
    let ghost lv = lines(content@);
    let n = ls.len();
    let mut total: Option<u64> = None;
    let mut avail: Option<u64> = None;
    let mut i: usize = 0;
    assert(lv.skip(0) == lv);
    while i < n
        invariant
            n == ls@.len(),
            0 <= i <= n,
            lv == lines(content@),
            views(ls@) == lv,
            scan_meminfo(lv, None, None) == scan_meminfo(
                lv.skip(i as int),
                match total {
                    Some(t) => Some(t as nat),
                    None => None,
                },
                match avail {
                    Some(a) => Some(a as nat),
                    None => None,
                },
            ),
        decreases n - i,
    {
        let ghost rest = lv.skip(i as int);
        assert(rest[0] == ls@[i as int]@);
        assert(rest.drop_first() == lv.skip(i + 1));
        let w = split_words(&ls[i]);
        assert(views(w@) == words(rest[0]));
        if w.len() >= 2 {
            assert(w@[0]@ == words(rest[0])[0]);
            assert(w@[1]@ == words(rest[0])[1]);
            if chars_eq_str(&w[0], "MemTotal:") {
                match parse_u64(&w[1]) {
                    Some(m) => {
                        if m > u64::MAX / 1024 {
                            return MemInfo::Overflow;
                        }
                        total = Some(m * 1024);
                    },
                    None => {},
                }
            } else if chars_eq_str(&w[0], "MemAvailable:") {
                match parse_u64(&w[1]) {
                    Some(m) => {
                        if m > u64::MAX / 1024 {
                            return MemInfo::Overflow;
                        }
                        avail = Some(m * 1024);
                    },
                    None => {},
                }
            }
        }
        i = i + 1;
    }
    assert(lv.skip(n as int) == Seq::<Seq<char>>::empty());
    match (total, avail) {
        (Some(t), Some(a)) => MemInfo::Values { total: t, available: a },
        _ => MemInfo::Missing,
    }
}

/// The placeholders of the memory line: use in percent (as given), available,
/// used and total memory.
pub open spec fn ram_pairs(total: nat, available: nat, percentage: Seq<char>) -> Seq<
    (Seq<char>, Seq<char>),
> {
    seq![
        ("%p"@, percentage),
        ("%a"@, spec_format_bytes(available)),
        ("%u"@, spec_format_bytes((total - available) as nat)),
        ("%t"@, spec_format_bytes(total)),
    ]
}

/// The values of the memory line: `%a` shows the available memory and `%u`
/// the rest of the total, so that the used memory of one reading is the
/// available memory of the reading with the two swapped; `%t` shows the total
/// and `%p` the percentage as given.
pub proof fn lemma_ram_values(total: nat, available: nat, percentage: Seq<char>)
    requires
        available <= total,
    ensures
        ram_pairs(total, available, percentage).len() == 4,
        ram_pairs(total, available, percentage)[0] == ("%p"@, percentage),
        ram_pairs(total, available, percentage)[1] == ("%a"@, spec_format_bytes(available)),
        ram_pairs(total, available, percentage)[2] == ("%u"@, spec_format_bytes((total - available) as nat)),
        ram_pairs(total, available, percentage)[3] == ("%t"@, spec_format_bytes(total)),
        ram_pairs(total, available, percentage)[2].1 == ram_pairs(
            total,
            (total - available) as nat,
            percentage,
        )[1].1,
        ram_pairs(total, available, percentage)[1].1 == ram_pairs(
            total,
            (total - available) as nat,
            percentage,
        )[2].1,
{
}

/// The memory line: `format` with `%p` (the use in percent, rendered by the
/// caller), `%a`, `%u` and `%t` (available, used and total memory) filled in.
pub fn ram_line(total: u64, available: u64, percentage: String, format: String) -> (line: String)
    requires
        available <= total,
    ensures
        line@ == fill(format@, ram_pairs(total as nat, available as nat, percentage@)),
{
    let used = total - available;
    let data = vec![
        ("%p".to_owned(), percentage),
        ("%a".to_owned(), format_bytes(available)),
        ("%u".to_owned(), format_bytes(used)),
        ("%t".to_owned(), format_bytes(total)),
    ];
    proof {
        assert(pairs_view(data@) =~= ram_pairs(total as nat, available as nat, percentage@));
        reveal_strlit("%p");
        reveal_strlit("%a");
        reveal_strlit("%u");
        reveal_strlit("%t");
        let ps = pairs_view(data@);
        assert(ps[0].0[1] == 'p' && ps[1].0[1] == 'a' && ps[2].0[1] == 'u' && ps[3].0[1] == 't');
        assert forall|i: int, j: int| 0 <= i < j < ps.len() implies #[trigger] ps[i].0 != #[trigger] ps[j].0 by {
            assert(ps[i].0[1] != ps[j].0[1]);
        }
    }
    format_output(data, format)
}

// ---------------------------------------------------------------------------
// Disk
// ---------------------------------------------------------------------------

/// The used disk space in bytes: the blocks that are not free, times the block
/// size.
pub open spec fn disk_used_bytes(blocks: nat, blocks_free: nat, block_size: nat) -> nat {
    ((blocks - blocks_free) * block_size) as nat
}

/// The disk line: `format` with `%u` filled in with the used space, the count of
/// blocks that are not free times the block size, rendered as a byte count.
pub fn disk_line(blocks: u64, blocks_free: u64, block_size: u64, format: String) -> (line: String)
    requires
        blocks_free <= blocks,
        (blocks - blocks_free) * block_size <= u64::MAX,
    ensures
        line@ == fill(
            format@,
            seq![("%u"@, spec_format_bytes(disk_used_bytes(blocks as nat, blocks_free as nat, block_size as nat)))],
        ),
{
    let used = (blocks - blocks_free) * block_size;
    let data = vec![("%u".to_owned(), format_bytes(used))];
    assert(pairs_view(data@) =~= seq![
        ("%u"@, spec_format_bytes(disk_used_bytes(blocks as nat, blocks_free as nat, block_size as nat))),
    ]);
    format_output(data, format)
}

// ---------------------------------------------------------------------------
// Wired network
// ---------------------------------------------------------------------------

/// The wired network line: `format_down` without an interface that is up, else
/// `format_up` with `%i` filled in with the interface's name.
pub fn eth_line(interface: Option<String>, format_up: String, format_down: String) -> (line: String)
    ensures
        line@ == match interface {
            None => format_down@,
            Some(i) => fill(format_up@, seq![("%i"@, i@)]),
        },
{
    match interface {
        None => format_down,
        Some(i) => {
            let data = vec![("%i".to_owned(), i)];
            let r = format_output(data, format_up);
            assert(pairs_view(data@) =~= seq![("%i"@, i@)]);
            r
        },
    }
}

// ---------------------------------------------------------------------------
// Battery
// ---------------------------------------------------------------------------

/// Whether the text of a battery's `status` file says that it is charging.
pub fn is_charging(status: &str) -> (r: bool)
    ensures
        r == (trim(status@) == "Charging"@),
{
    let t = trim_str(status);
    chars_eq_str(&t, "Charging")
}

/// The battery line: `format_none` without a battery; else, from the texts of
/// its `capacity` and `status` files, `format_charging` while it charges and
/// `format` otherwise, with `%p` filled in with the trimmed capacity.
pub fn battery_line(
    readings: Option<(String, String)>,
    format: String,
    format_charging: String,
    format_none: String,
) -> (line: String)
    ensures
        line@ == match readings {
            None => format_none@,
            Some((capacity, status)) => fill(
                if trim(status@) == "Charging"@ {
                    format_charging@
                } else {
                    format@
                },
                seq![("%p"@, trim(capacity@))],
            ),
        },
{
    match readings {
        None => format_none,
        Some((capacity, status)) => {
            let charging = is_charging(status.as_str());
            let cap = string_of(&trim_str(capacity.as_str()));
            let data = vec![("%p".to_owned(), cap)];
            assert(pairs_view(data@) =~= seq![("%p"@, trim(capacity@))]);
            if charging {
                format_output(data, format_charging)
            } else {
                format_output(data, format)
            }
        },
    }
}

/// The capacity in percent from the text of a battery's `capacity` file, where
/// its trimmed text parses as a `u8`.
pub fn parse_capacity(content: &str) -> (r: Option<u8>)
    ensures
        r == (match parse_unsigned(trim(content@), u8::MAX as nat) {
            Some(x) => Some(x as u8),
            None => None,
        }),
{
    let t = trim_str(content);
    crate::text::parse_u8(&t)
}

// ---------------------------------------------------------------------------
// Package updates
// ---------------------------------------------------------------------------

/// The number of lines of a command's output.
pub fn count_lines(text: &str) -> (n: usize)
    ensures
        n == lines(text@).len(),
{
    let chars = chars_of(text);
    let ls = split_lines(&chars);
    assert(views(ls@).len() == ls@.len());
    ls.len()
}

/// The number of lines of a command's output, read as UTF-8 with invalid
/// sequences replaced.
pub fn count_output_lines(output: &[u8]) -> (n: usize)
    ensures
        n == lines(utf8_lossy(output@)).len(),
{
    let text = string_from_utf8_lossy(output);
    count_lines(text.as_str())
}

/// The command that lists pending AUR updates: `paru` where asked for, else
/// `yay`.
pub fn aur_helper_command(use_paru: bool) -> (cmd: String)
    ensures
        cmd@ == if use_paru {
            "paru"@
        } else {
            "yay"@
        },
{
    if use_paru {
        "paru".to_owned()
    } else {
        "yay".to_owned()
    }
}

/// The placeholders of the updates line: pacman, AUR and total updates.
pub open spec fn updates_pairs(pacman: nat, aur: nat) -> Seq<(Seq<char>, Seq<char>)> {
    seq![("%p"@, decimal(pacman)), ("%y"@, decimal(aur)), ("%t"@, decimal(pacman + aur))]
}

/// The three counts of the updates line read back as numbers: the pacman
/// count, the AUR count, and as total the sum of the two.
pub proof fn lemma_updates_total_is_sum(pacman: nat, aur: nat)
    ensures
        updates_pairs(pacman, aur).len() == 3,
        updates_pairs(pacman, aur)[0].0 == "%p"@,
        updates_pairs(pacman, aur)[1].0 == "%y"@,
        updates_pairs(pacman, aur)[2].0 == "%t"@,
        digits_value(updates_pairs(pacman, aur)[0].1) == pacman,
        digits_value(updates_pairs(pacman, aur)[1].1) == aur,
        digits_value(updates_pairs(pacman, aur)[2].1) == digits_value(updates_pairs(pacman, aur)[0].1)
            + digits_value(updates_pairs(pacman, aur)[1].1),
{
    lemma_decimal_reads_back(pacman);
    lemma_decimal_reads_back(aur);
    lemma_decimal_reads_back(pacman + aur);
}

/// The updates line: `format` with `%p`, `%y` and `%t` filled in with the counts
/// of pacman, AUR and all pending updates.
pub fn updates_line(pacman: usize, aur: usize, format: String) -> (line: String)
    requires
        pacman + aur <= usize::MAX,
    ensures
        line@ == fill(format@, updates_pairs(pacman as nat, aur as nat)),
{
    let total = pacman + aur;
    let data = vec![
        ("%p".to_owned(), decimal_string(pacman as u128)),
        ("%y".to_owned(), decimal_string(aur as u128)),
        ("%t".to_owned(), decimal_string(total as u128)),
    ];
    proof {
        assert(pairs_view(data@) =~= updates_pairs(pacman as nat, aur as nat));
        reveal_strlit("%p");
        reveal_strlit("%y");
        reveal_strlit("%t");
        let ps = pairs_view(data@);
        assert(ps[0].0[1] == 'p' && ps[1].0[1] == 'y' && ps[2].0[1] == 't');
        assert forall|i: int, j: int| 0 <= i < j < ps.len() implies #[trigger] ps[i].0 != #[trigger] ps[j].0 by {
            assert(ps[i].0[1] != ps[j].0[1]);
        }
    }
    format_output(data, format)
}

} // verus!
