//! What the texts that the kernel prints say, when they are read back.

use core::ops::Range;

use vstd::prelude::*;

use crate::manager_laws::{
    just_enough_words, lemma_ceil, lemma_runs_list_pages, listed, lists_pages, page_bit,
};
use crate::memory::LinearMemory;
use crate::phys_alloc::{
    are_runs, bitmap_words, ceil_div, page_count_line, regions_text, PhysicalMemoryManager,
};
use crate::text::{append_decimal, append_hexadecimal, decimal, digit, digits};

verus! {

/// What a digit stands for, or -1 if it is not one.
pub open spec fn digit_value(c: char) -> int {
    if '0' <= c <= '9' {
        c as int - '0' as int
    } else if 'A' <= c <= 'F' {
        c as int - 'A' as int + 10
    } else {
        -1
    }
}

/// What a sequence of digits stands for.
pub open spec fn value(s: Seq<char>, radix: int) -> int
    decreases s.len(),
{
    if s.len() == 0 {
        0
    } else {
        value(s.drop_last(), radix) * radix + digit_value(s.last())
    }
}

/// Whether `s` is the number `n`, written with digits below `radix` and without leading zeros.
pub open spec fn numeral(s: Seq<char>, radix: int, n: int) -> bool {
    &&& s.len() > 0
    &&& forall|i: int| 0 <= i < s.len() ==> 0 <= digit_value(#[trigger] s[i]) < radix
    &&& s.len() > 1 ==> s[0] != '0'
    &&& value(s, radix) == n
}

proof fn lemma_digit_value(d: int)
    requires
        0 <= d < 16,
    ensures
        digit_value(digit(d)) == d,
        d > 0 ==> digit(d) != '0',
{
}

/// The digits of a number, read back, are the number.
proof fn lemma_digits_numeral(n: nat, radix: nat)
    requires
        2 <= radix <= 16,
    ensures
        numeral(digits(n, radix), radix as int, n as int),
        n > 0 ==> digits(n, radix)[0] != '0',
    decreases n,
{
    let s = digits(n, radix);
    if n < radix {
        lemma_digit_value(n as int);
        assert(s =~= seq![digit(n as int)]);
        assert(s.drop_last() =~= Seq::<char>::empty());
        assert(value(s.drop_last(), radix as int) == 0);
        assert(value(s, radix as int) == 0 * radix + digit_value(s.last()));
        assert(0 * radix == 0) by (nonlinear_arith);
    } else {
        let q = n / radix;
        let r = n % radix;
        vstd::arithmetic::div_mod::lemma_fundamental_div_mod(n as int, radix as int);
        assert(0 < q < n) by (nonlinear_arith)
            requires
                2 <= radix <= n,
                q == n / radix,
        ;
        assert(0 <= r < radix);
        lemma_digits_numeral(q, radix);
        lemma_digit_value(r as int);
        let before = digits(q, radix);
        assert(s == before.push(digit(r as int)));
        assert(s.drop_last() =~= before);
        assert(q * radix + r == n) by (nonlinear_arith)
            requires
                n == radix * q + r,
        ;
        assert forall|i: int| 0 <= i < s.len() implies 0 <= digit_value(#[trigger] s[i]) < radix by {
            if i < before.len() {
                assert(s[i] == before[i]);
            }
        }
        assert(s[0] == before[0]);
    }
}

/// A number that is appended in decimal, read back, is that number. The text before it stays.
pub proof fn law_append_decimal(out: &mut String, n: u64)
    requires
        call_ensures(append_decimal, (out, n), ()),
    ensures
        exists|s: Seq<char>| #[trigger]
            numeral(s, 10, n as int) && final(out)@ == old(out)@ + s,
{
    lemma_digits_numeral(n as nat, 10);
    assert(numeral(decimal(n as int), 10, n as int));
}

/// A number that is appended in hexadecimal, read back after its prefix, is that number. The text
/// before it stays.
pub proof fn law_append_hexadecimal(out: &mut String, n: u64)
    requires
        call_ensures(append_hexadecimal, (out, n), ()),
    ensures
        exists|s: Seq<char>| #[trigger]
            numeral(s, 16, n as int) && final(out)@ == old(out)@ + (seq!['0', 'x'] + s),
{
    lemma_digits_numeral(n as nat, 16);
    assert(numeral(digits(n as nat, 16), 16, n as int));
}

/// Whether `line` is the line of a region: the addresses of its first page and of the page after
/// its last one, as hexadecimal numbers, and the number of its pages, as a decimal number.
pub open spec fn region_line(
    line: Seq<char>,
    first: Seq<char>,
    end: Seq<char>,
    pages: Seq<char>,
    region: Range<u64>,
) -> bool {
    &&& line == seq!['0', 'x'] + first + seq!['.', '.'] + seq!['0', 'x'] + end + seq![':', ' ']
        + pages + seq![' ', 'p', 'a', 'g', 'e', 's', '\n']
    &&& numeral(first, 16, region.start * 4096)
    &&& numeral(end, 16, region.end * 4096)
    &&& numeral(pages, 10, region.end - region.start)
}

/// Whether `line` is the line of a region.
pub open spec fn is_region_line(line: Seq<char>, region: Range<u64>) -> bool {
    exists|first: Seq<char>, end: Seq<char>, pages: Seq<char>| #[trigger]
        region_line(line, first, end, pages, region)
}

/// Whether `text` is a heading and then the lines of the regions, one after the other.
pub open spec fn shows(text: Seq<char>, regions: Seq<Range<u64>>) -> bool
    decreases regions.len(),
{
    if regions.len() == 0 {
        text == "Available Memory Regions:\n"@
    } else {
        exists|before: Seq<char>, line: Seq<char>|
            {
                &&& #[trigger] text_ends(text, before, line)
                &&& shows(before, regions.drop_last())
                &&& is_region_line(line, regions.last())
            }
    }
}

/// Whether `text` is `before` and then `line`.
pub open spec fn text_ends(text: Seq<char>, before: Seq<char>, line: Seq<char>) -> bool {
    text == before + line
}

/// The text of some regions shows them.
proof fn lemma_shows(regions: Seq<Range<u64>>)
    requires
        forall|i: int| 0 <= i < regions.len() ==> (#[trigger] regions[i]).start <= regions[i].end,
    ensures
        shows(regions_text(regions), regions),
    decreases regions.len(),
{
    if regions.len() > 0 {
        let shorter = regions.drop_last();
        let region = regions.last();
        assert(region == regions[regions.len() - 1]);
        assert forall|i: int| 0 <= i < shorter.len() implies (#[trigger] shorter[i]).start
            <= shorter[i].end by {
            assert(shorter[i] == regions[i]);
        }
        lemma_shows(shorter);
        let first = digits((region.start * 4096) as nat, 16);
        let end = digits((region.end * 4096) as nat, 16);
        let pages = digits((region.end - region.start) as nat, 10);
        lemma_digits_numeral((region.start * 4096) as nat, 16);
        lemma_digits_numeral((region.end * 4096) as nat, 16);
        lemma_digits_numeral((region.end - region.start) as nat, 10);
        reveal_strlit("..");
        reveal_strlit(": ");
        reveal_strlit(" pages\n");
        assert(".."@ =~= seq!['.', '.']);
        assert(": "@ =~= seq![':', ' ']);
        assert(" pages\n"@ =~= seq![' ', 'p', 'a', 'g', 'e', 's', '\n']);
        let line = seq!['0', 'x'] + first + seq!['.', '.'] + seq!['0', 'x'] + end + seq![':', ' ']
            + pages + seq![' ', 'p', 'a', 'g', 'e', 's', '\n'];
        assert(region_line(line, first, end, pages, region));
        assert(is_region_line(line, region));
        let before = regions_text(shorter);
        let shown = before + (seq!['0', 'x'] + first) + ".."@ + (seq!['0', 'x'] + end) + ": "@
            + pages + " pages\n"@;
        assert(regions_text(regions) == shown);
        assert(shown =~= before + line);
        assert(text_ends(regions_text(regions), regions_text(shorter), line));
    }
}

/// The text of a manager shows exactly the available pages: the regions that are read back from
/// it hold each available page below the number of pages, and no other, and are as long as they
/// can be.
pub proof fn law_text_shows_available_pages<M: LinearMemory>(
    pmm: &PhysicalMemoryManager,
    mem: &M,
    text: String,
)
    requires
        call_ensures(PhysicalMemoryManager::fmt::<M>, (pmm, mem), text),
    ensures
        exists|regions: Seq<Range<u64>>| #[trigger]
            lists_pages(regions, pmm, mem) && shows(text@, regions),
{
    let regions = choose|regions: Seq<Range<u64>>|
        are_runs(regions, pmm.availability(mem), pmm.page_count as int) && text@
            == #[trigger] regions_text(regions);
    lemma_runs_list_pages(regions, pmm, mem);
    lemma_shows(regions);
}

/// A line has one line break, at its end.
proof fn lemma_line_break(line: Seq<char>, region: Range<u64>)
    requires
        is_region_line(line, region),
    ensures
        line.len() > 0,
        forall|i: int| 0 <= i < line.len() ==> (#[trigger] line[i] == '\n' <==> i == line.len() - 1),
{
    let (first, end, pages) = choose|first: Seq<char>, end: Seq<char>, pages: Seq<char>| #[trigger]
        region_line(line, first, end, pages, region);
    let a = first.len() as int;
    let b = end.len() as int;
    let c = pages.len() as int;
    assert(line.len() == a + b + c + 15);
    assert forall|i: int| 0 <= i < line.len() implies (#[trigger] line[i] == '\n' <==> i == line.len()
        - 1) by {
        assert(digit_value('\n') == -1);
        if 2 <= i < 2 + a {
            assert(line[i] == first[i - 2]);
        } else if a + 6 <= i < a + 6 + b {
            assert(line[i] == end[i - a - 6]);
        } else if a + b + 8 <= i < a + b + c + 8 {
            assert(line[i] == pages[i - a - b - 8]);
        }
    }
}

/// The text ends with a line break.
proof fn lemma_shows_break(text: Seq<char>, regions: Seq<Range<u64>>)
    requires
        shows(text, regions),
    ensures
        text.len() > 0,
        text.last() == '\n',
        regions.len() == 0 ==> forall|i: int| 0 <= i < text.len() - 1 ==> #[trigger] text[i] != '\n',
{
    if regions.len() == 0 {
        reveal_strlit("Available Memory Regions:\n");
    } else {
        let (before, line) = choose|before: Seq<char>, line: Seq<char>|
            {
                &&& #[trigger] text_ends(text, before, line)
                &&& shows(before, regions.drop_last())
                &&& is_region_line(line, regions.last())
            };
        lemma_line_break(line, regions.last());
        assert(text.last() == line.last());
    }
}

/// A line is the line of one region only.
proof fn lemma_line_unique(line: Seq<char>, a: Range<u64>, b: Range<u64>)
    requires
        is_region_line(line, a),
        is_region_line(line, b),
    ensures
        a == b,
{
    let (f1, e1, p1) = choose|first: Seq<char>, end: Seq<char>, pages: Seq<char>| #[trigger]
        region_line(line, first, end, pages, a);
    let (f2, e2, p2) = choose|first: Seq<char>, end: Seq<char>, pages: Seq<char>| #[trigger]
        region_line(line, first, end, pages, b);
    lemma_line_parts(line, f1, e1, p1, a);
    lemma_line_parts(line, f2, e2, p2, b);
    assert(digit_value('.') == -1 && digit_value(':') == -1);
    let m = f1.len() as int;
    let n = f2.len() as int;
    assert(m == n) by {
        if m < n {
            assert(line[2 + m] == f2[m]);
        } else if n < m {
            assert(line[2 + n] == f1[n]);
        }
    }
    assert(f1 =~= f2) by {
        assert forall|i: int| 0 <= i < m implies f1[i] == f2[i] by {
            assert(line[2 + i] == f1[i]);
        }
    }
    let k = e1.len() as int;
    let l = e2.len() as int;
    assert(k == l) by {
        if k < l {
            assert(line[m + 6 + k] == e2[k]);
        } else if l < k {
            assert(line[m + 6 + l] == e1[l]);
        }
    }
    assert(e1 =~= e2) by {
        assert forall|i: int| 0 <= i < k implies e1[i] == e2[i] by {
            assert(line[m + 6 + i] == e1[i]);
        }
    }
}

/// What stands where in a line.
proof fn lemma_line_parts(
    line: Seq<char>,
    first: Seq<char>,
    end: Seq<char>,
    pages: Seq<char>,
    region: Range<u64>,
)
    requires
        region_line(line, first, end, pages, region),
    ensures
        forall|i: int| 0 <= i < first.len() ==> line[2 + i] == #[trigger] first[i],
        line[2 + first.len() as int] == '.',
        forall|i: int|
            0 <= i < end.len() ==> line[first.len() + 6 + i] == #[trigger] end[i],
        line[first.len() + 6 + end.len() as int] == ':',
{
}

/// A text shows one list of regions only.
pub proof fn law_text_read_back(text: Seq<char>, a: Seq<Range<u64>>, b: Seq<Range<u64>>)
    requires
        shows(text, a),
        shows(text, b),
    ensures
        a == b,
    decreases a.len(),
{
    lemma_shows_break(text, a);
    lemma_shows_break(text, b);
    if a.len() > 0 {
        let (before, line) = choose|before: Seq<char>, line: Seq<char>|
            {
                &&& #[trigger] text_ends(text, before, line)
                &&& shows(before, a.drop_last())
                &&& is_region_line(line, a.last())
            };
        lemma_line_break(line, a.last());
        lemma_shows_break(before, a.drop_last());
        assert(text[before.len() - 1] == '\n');
        assert(b.len() > 0);
        let (other, tail) = choose|before: Seq<char>, line: Seq<char>|
            {
                &&& #[trigger] text_ends(text, before, line)
                &&& shows(before, b.drop_last())
                &&& is_region_line(line, b.last())
            };
        lemma_line_break(tail, b.last());
        lemma_shows_break(other, b.drop_last());
        assert(text[other.len() - 1] == '\n');
        assert(before.len() == other.len()) by {
            if before.len() < other.len() {
                assert(text[other.len() - 1] == line[other.len() - 1 - before.len()]);
            } else if other.len() < before.len() {
                assert(text[before.len() - 1] == tail[before.len() - 1 - other.len()]);
            }
        }
        assert(before =~= other) by {
            assert forall|i: int| 0 <= i < before.len() implies before[i] == other[i] by {
                assert(text[i] == before[i]);
            }
        }
        assert(line =~= tail) by {
            assert forall|i: int| 0 <= i < line.len() implies line[i] == tail[i] by {
                assert(text[before.len() + i] == line[i]);
            }
        }
        law_text_read_back(before, a.drop_last(), b.drop_last());
        lemma_line_unique(line, a.last(), b.last());
        assert(a =~= a.drop_last().push(a.last()));
        assert(b =~= b.drop_last().push(b.last()));
    } else if b.len() > 0 {
        let (other, tail) = choose|before: Seq<char>, line: Seq<char>|
            {
                &&& #[trigger] text_ends(text, before, line)
                &&& shows(before, b.drop_last())
                &&& is_region_line(line, b.last())
            };
        lemma_line_break(tail, b.last());
        lemma_shows_break(other, b.drop_last());
        assert(text[other.len() - 1] == '\n');
    } else {
        assert(a =~= b);
    }
}

/// Two lists of regions never have the same text.
pub proof fn law_regions_text_differs(a: Seq<Range<u64>>, b: Seq<Range<u64>>)
    requires
        forall|i: int| 0 <= i < a.len() ==> (#[trigger] a[i]).start <= a[i].end,
        forall|i: int| 0 <= i < b.len() ==> (#[trigger] b[i]).start <= b[i].end,
        a != b,
    ensures
        regions_text(a) != regions_text(b),
{
    lemma_shows(a);
    lemma_shows(b);
    if regions_text(a) == regions_text(b) {
        law_text_read_back(regions_text(a), a, b);
    }
}

/// Two managers that print the same text have the same available pages, up to the number of pages
/// that both have, and beyond that number no page is available to either.
pub proof fn law_same_text_same_pages<M: LinearMemory>(
    pmm: &PhysicalMemoryManager,
    mem: &M,
    other: &PhysicalMemoryManager,
    other_mem: &M,
    text: String,
    page: int,
)
    requires
        call_ensures(PhysicalMemoryManager::fmt::<M>, (pmm, mem), text),
        call_ensures(PhysicalMemoryManager::fmt::<M>, (other, other_mem), text),
        0 <= page < pmm.page_count,
    ensures
        page_bit(mem.words(), mem.base(), pmm.bitmap_ptr, page) <==> (page < other.page_count
            && page_bit(other_mem.words(), other_mem.base(), other.bitmap_ptr, page)),
{
    law_text_shows_available_pages(pmm, mem, text);
    law_text_shows_available_pages(other, other_mem, text);
    let a = choose|regions: Seq<Range<u64>>| #[trigger]
        lists_pages(regions, pmm, mem) && shows(text@, regions);
    let b = choose|regions: Seq<Range<u64>>| #[trigger]
        lists_pages(regions, other, other_mem) && shows(text@, regions);
    law_text_read_back(text@, a, b);
    assert(page_bit(mem.words(), mem.base(), pmm.bitmap_ptr, page) == listed(a, page));
    if page < other.page_count {
        assert(page_bit(other_mem.words(), other_mem.base(), other.bitmap_ptr, page) == listed(
            b,
            page,
        ));
    }
}

/// Whether `line` tells the number of pages, and the size of the bitmap in bytes and in pages.
pub open spec fn is_page_count_line(
    line: Seq<char>,
    pages: Seq<char>,
    bytes: Seq<char>,
    bitmap_pages: Seq<char>,
) -> bool {
    line == "Physical page count: "@ + pages + ", Bitmap size: "@ + bytes + " bytes in "@
        + bitmap_pages + " pages\n"@
}

/// The line on the number of pages tells that number, the number of bytes that are just enough
/// words for a bit for each page, and the number of pages that are just enough for those bytes.
pub proof fn law_page_count_line(page_count: u64, text: String)
    requires
        call_ensures(page_count_line, (page_count,), text),
    ensures
        exists|
            words: int,
            bitmap_pages: int,
            a: Seq<char>,
            b: Seq<char>,
            c: Seq<char>,
        |
            {
                &&& #[trigger] is_page_count_line(text@, a, b, c)
                &&& numeral(a, 10, page_count as int)
                &&& numeral(b, 10, 8 * words)
                &&& #[trigger] numeral(c, 10, bitmap_pages)
                &&& #[trigger] just_enough_words(page_count as int, words)
                &&& bitmap_pages >= 0
                &&& 4096 * bitmap_pages >= 8 * words
                &&& bitmap_pages > 0 ==> 4096 * (bitmap_pages - 1) < 8 * words
            },
{
    let words = bitmap_words(page_count as int);
    let bitmap_pages = ceil_div(8 * words, 4096);
    lemma_ceil(page_count as int, 64, words);
    lemma_ceil(8 * words, 4096, bitmap_pages);
    lemma_digits_numeral(page_count as nat, 10);
    lemma_digits_numeral((8 * words) as nat, 10);
    lemma_digits_numeral(bitmap_pages as nat, 10);
    let a = decimal(page_count as int);
    let b = decimal(8 * words);
    let c = decimal(bitmap_pages);
    assert(is_page_count_line(text@, a, b, c));
    assert(numeral(c, 10, bitmap_pages));
    assert(just_enough_words(page_count as int, words));
}

/// Whether `line` tells where the bitmap is in physical and in virtual memory.
pub open spec fn is_bitmap_line(line: Seq<char>, physical: Seq<char>, virt: Seq<char>) -> bool {
    line == "Bitmap at 0x"@ + physical + " in physical memory and 0x"@ + virt
        + " in virtual memory\n"@
}

/// The line on the bitmap tells its address in virtual memory, and how far that is from where
/// physical memory starts.
pub proof fn law_bitmap_line(pmm: &PhysicalMemoryManager, text: String)
    requires
        call_ensures(PhysicalMemoryManager::bitmap_line, (pmm,), text),
        pmm.physical_offset <= pmm.bitmap_ptr,
    ensures
        exists|a: Seq<char>, b: Seq<char>|
            {
                &&& #[trigger] is_bitmap_line(text@, a, b)
                &&& numeral(a, 16, pmm.bitmap_ptr - pmm.physical_offset)
                &&& numeral(b, 16, pmm.bitmap_ptr as int)
            },
{
    let a = digits((pmm.bitmap_ptr - pmm.physical_offset) as nat, 16);
    let b = digits(pmm.bitmap_ptr as nat, 16);
    lemma_digits_numeral((pmm.bitmap_ptr - pmm.physical_offset) as nat, 16);
    lemma_digits_numeral(pmm.bitmap_ptr as nat, 16);
    reveal_strlit("Bitmap at ");
    reveal_strlit("Bitmap at 0x");
    reveal_strlit(" in physical memory and ");
    reveal_strlit(" in physical memory and 0x");
    assert("Bitmap at 0x"@ =~= "Bitmap at "@ + seq!['0', 'x']);
    assert(" in physical memory and 0x"@ =~= " in physical memory and "@ + seq!['0', 'x']);
    assert(text@ =~= "Bitmap at 0x"@ + a + " in physical memory and 0x"@ + b
        + " in virtual memory\n"@);
    assert(is_bitmap_line(text@, a, b));
}

} // verus!
