//! The file of a part: its name and its rows.

use vstd::prelude::*;
use vstd::string::StringExecFns;

use crate::address;
use crate::address::{address_row, Address};
use crate::address_set::AddressSet;
use crate::listing;
use crate::text;
use crate::text::{decimal, three_digits};

verus! {

/// The name of a part's file: chain, first and last block, and the number of the part.
pub open spec fn file_name_text(
    chain: Seq<char>,
    part_num: u32,
    start_block: u64,
    end_block: u64,
) -> Seq<char> {
    "output/"@ + chain + "_blocks_"@ + text::decimal_text(start_block as nat) + "_to_"@
        + text::decimal_text(end_block as nat) + "_part_"@ + text::three_digits_text(
        part_num as nat,
    ) + ".csv.gz"@
}

/// The name of a part's file: chain, first and last block, and the number of the part.
pub fn part_file_name(chain: &str, part_num: u32, start_block: u64, end_block: u64) -> (res: String)
    ensures
        res@ == file_name_text(chain@, part_num, start_block, end_block),
{
    let mut out = "output/".to_owned();
    out.append(chain);
    out.append("_blocks_");
    out.append(decimal(start_block).as_str());
    out.append("_to_");
    out.append(decimal(end_block).as_str());
    out.append("_part_");
    out.append(three_digits(part_num as u64).as_str());
    out.append(".csv.gz");
    out
}

/// The rows of addresses, in their order.
pub open spec fn address_rows(addresses: Seq<Seq<u8>>) -> Seq<Seq<char>> {
    Seq::new(addresses.len(), |i: int| address::address_text(addresses[i]))
}

/// The rows of the file that holds a set of addresses: a header, and the addresses in ascending
/// order.
pub open spec fn file_rows(addresses: Set<Seq<u8>>) -> Seq<Seq<char>> {
    seq!["address"@] + address_rows(listing::listing(addresses))
}

/// The set can be listed, and its elements are addresses.
pub open spec fn is_file_content(addresses: Set<Seq<u8>>) -> bool {
    &&& listing::is_listing(listing::listing(addresses), addresses)
    &&& forall|a: Seq<u8>| #[trigger] addresses.contains(a) ==> a.len() == 20
}

/// The rows of a file that are still to be written.
#[derive(Debug)]
pub struct PartRows {
    addresses: Vec<Address>,
    next: usize,
    header_due: bool,
}

impl View for PartRows {
    type V = Seq<Seq<char>>;

    closed spec fn view(&self) -> Seq<Seq<char>> {
        let rows = address_rows(address::bytes_of(self.addresses@).skip(self.next as int));
        if self.header_due {
            seq!["address"@] + rows
        } else {
            rows
        }
    }
}

impl PartRows {
    /// The next row lies among the addresses or right behind them.
    #[verifier::type_invariant]
    spec fn inv(self) -> bool {
        self.next <= self.addresses@.len()
    }

    /// All rows of the file that holds the addresses.
    pub fn new(addresses: &AddressSet) -> (res: PartRows)
        requires
            addresses.wf(),
        ensures
            res@ == file_rows(addresses@),
            is_file_content(addresses@),
    {
        let rows = PartRows { addresses: addresses.sorted(), next: 0, header_due: true };
        proof {
            let all = address::bytes_of(rows.addresses@);
            assert(all.skip(0) =~= all);
            assert forall|a: Seq<u8>| #[trigger] addresses@.contains(a) implies a.len() == 20 by {
                assert(all.to_set().contains(a));
                let i = choose|i: int| 0 <= i < all.len() && all[i] == a;
                assert(rows.addresses@[i]@ == a);
            }
        }
        rows
    }

    /// Takes the next row, if there is one.
    pub fn next_row(&mut self) -> (res: Option<String>)
        ensures
            match res {
                Some(row) => old(self)@.len() > 0 && row@ == old(self)@[0] && final(self)@
                    == old(self)@.skip(1),
                None => old(self)@.len() == 0 && final(self)@ == old(self)@,
            },
    {
        proof {
            use_type_invariant(&*self);
        }
        let ghost was = self@;
        let ghost all = address::bytes_of(self.addresses@);
        let ghost at = self.next as int;
        if self.header_due {
            self.header_due = false;
            assert(self@ =~= was.skip(1));
            return Some("address".to_owned());
        }
        if self.next < self.addresses.len() {
            let row = address_row(&self.addresses[self.next]);
            assert(all.skip(at)[0] == all[at]);
            self.next = self.next + 1;
            assert(self@ =~= was.skip(1));
            return Some(row);
        }
        None
    }
}

/// Digits in front of something that starts with no digit can be told apart from it.
proof fn lemma_digits_end(a: Seq<char>, b: Seq<char>, x: Seq<char>, y: Seq<char>)
    requires
        text::all_decimal_digits(a),
        text::all_decimal_digits(b),
        x.len() > 0,
        y.len() > 0,
        !('0' <= x[0] <= '9'),
        !('0' <= y[0] <= '9'),
        a + x == b + y,
    ensures
        a == b,
        x == y,
{
    let s = a + x;
    let t = b + y;
    if a.len() < b.len() {
        assert(s[a.len() as int] == x[0]);
        assert(t[a.len() as int] == b[a.len() as int]);
    } else if b.len() < a.len() {
        assert(t[b.len() as int] == y[0]);
        assert(s[b.len() as int] == a[b.len() as int]);
    }
    assert(a =~= s.take(a.len() as int));
    assert(b =~= t.take(b.len() as int));
    assert(x =~= s.skip(a.len() as int));
    assert(y =~= t.skip(b.len() as int));
}

/// Of one chain, files with the same name are of the same part and hold the same blocks: no part
/// overwrites the file of another.
pub proof fn law_file_names_differ(
    chain: Seq<char>,
    part1: u32,
    start1: u64,
    end1: u64,
    part2: u32,
    start2: u64,
    end2: u64,
)
    requires
        file_name_text(chain, part1, start1, end1) == file_name_text(chain, part2, start2, end2),
    ensures
        part1 == part2,
        start1 == start2,
        end1 == end2,
{
    reveal_strlit("_to_");
    reveal_strlit("_part_");
    reveal_strlit(".csv.gz");
    let head = "output/"@ + chain + "_blocks_"@;
    let s1 = text::decimal_text(start1 as nat);
    let s2 = text::decimal_text(start2 as nat);
    let e1 = text::decimal_text(end1 as nat);
    let e2 = text::decimal_text(end2 as nat);
    let p1 = text::three_digits_text(part1 as nat);
    let p2 = text::three_digits_text(part2 as nat);
    let tail1 = p1 + ".csv.gz"@;
    let tail2 = p2 + ".csv.gz"@;
    let mid1 = "_part_"@ + tail1;
    let mid2 = "_part_"@ + tail2;
    let rest1 = "_to_"@ + (e1 + mid1);
    let rest2 = "_to_"@ + (e2 + mid2);
    let name1 = file_name_text(chain, part1, start1, end1);
    let name2 = file_name_text(chain, part2, start2, end2);
    assert(name1 =~= head + (s1 + rest1));
    assert(name2 =~= head + (s2 + rest2));
    assert(s1 + rest1 =~= name1.skip(head.len() as int));
    assert(s2 + rest2 =~= name2.skip(head.len() as int));
    text::law_decimal_reads_back(start1 as nat);
    text::law_decimal_reads_back(start2 as nat);
    lemma_digits_end(s1, s2, rest1, rest2);
    assert(e1 + mid1 =~= rest1.skip(4));
    assert(e2 + mid2 =~= rest2.skip(4));
    text::law_decimal_reads_back(end1 as nat);
    text::law_decimal_reads_back(end2 as nat);
    lemma_digits_end(e1, e2, mid1, mid2);
    assert(tail1 =~= mid1.skip(6));
    assert(tail2 =~= mid2.skip(6));
    text::law_three_digits_reads_back(part1 as nat);
    text::law_three_digits_reads_back(part2 as nat);
    lemma_digits_end(p1, p2, ".csv.gz"@, ".csv.gz"@);
}

/// `s` comes before `t`: they differ, and where they first differ `s` has the smaller character.
pub open spec fn text_comes_before(s: Seq<char>, t: Seq<char>) -> bool {
    exists|k: int|
        #![trigger s[k], t[k]]
        0 <= k < s.len() && k < t.len() && s[k] < t[k] && (forall|i: int|
            0 <= i < k ==> s[i] == t[i])
}

/// The rows of addresses are ordered as the addresses are.
proof fn lemma_rows_ordered(a: Seq<u8>, b: Seq<u8>)
    requires
        a.len() == b.len(),
        listing::comes_before(a, b),
    ensures
        text_comes_before(address::address_text(a), address::address_text(b)),
{
    reveal_strlit("0x");
    let k = choose|k: int|
        #![trigger a[k], b[k]]
        0 <= k < a.len() && k < b.len() && a[k] < b[k] && (forall|i: int|
            0 <= i < k ==> a[i] == b[i]);
    let s = address::address_text(a);
    let t = address::address_text(b);
    let x = a[k] as int;
    let y = b[k] as int;
    assert((2 * k) / 2 == k && (2 * k) % 2 == 0 && (2 * k + 1) / 2 == k && (2 * k + 1) % 2 == 1);
    assert(s[2 + 2 * k] == text::digit_char(x / 16) && t[2 + 2 * k] == text::digit_char(y / 16));
    assert(s[3 + 2 * k] == text::digit_char(x % 16) && t[3 + 2 * k] == text::digit_char(y % 16));
    assert forall|i: int| 0 <= i < 2 + 2 * k implies s[i] == t[i] by {
        if i >= 2 {
            assert(0 <= (i - 2) / 2 < k);
            assert(a[(i - 2) / 2] == b[(i - 2) / 2]);
        }
    }
    if x / 16 < y / 16 {
        assert(s[2 + 2 * k] < t[2 + 2 * k]);
    } else {
        assert(x / 16 == y / 16 && x % 16 < y % 16);
        assert(s[3 + 2 * k] < t[3 + 2 * k]);
    }
}

/// A file holds, behind its header, one row for each address of its set and no other row; the
/// rows read back as the addresses, and they ascend, as addresses and as texts.
pub proof fn law_file_holds_the_set(addresses: Set<Seq<u8>>)
    requires
        is_file_content(addresses),
    ensures
        file_rows(addresses).len() == addresses.len() + 1,
        file_rows(addresses)[0] == "address"@,
        forall|i: int|
            1 <= i < file_rows(addresses).len() ==> address::address_value(
                #[trigger] file_rows(addresses)[i],
            ) == Some(listing::listing(addresses)[i - 1]) && addresses.contains(
                listing::listing(addresses)[i - 1],
            ),
        forall|a: Seq<u8>| #[trigger]
            addresses.contains(a) ==> file_rows(addresses).contains(address::address_text(a)),
        forall|i: int, j: int|
            #![trigger file_rows(addresses)[i], file_rows(addresses)[j]]
            1 <= i < j < file_rows(addresses).len() ==> text_comes_before(
                file_rows(addresses)[i],
                file_rows(addresses)[j],
            ),
{
    let list = listing::listing(addresses);
    let rows = file_rows(addresses);
    listing::law_listing_has_no_repetition(list);
    list.unique_seq_to_set();
    assert forall|i: int| 0 <= i < list.len() implies addresses.contains(#[trigger] list[i])
        && list[i].len() == 20 by {
        assert(list.to_set().contains(list[i]));
    }
    assert forall|i: int| 1 <= i < rows.len() implies address::address_value(#[trigger] rows[i])
        == Some(list[i - 1]) && addresses.contains(list[i - 1]) by {
        assert(rows[i] == address::address_text(list[i - 1]));
        address::law_row_reads_back(list[i - 1]);
    }
    assert forall|a: Seq<u8>| #[trigger] addresses.contains(a) implies rows.contains(
        address::address_text(a),
    ) by {
        assert(list.to_set().contains(a));
        let i = choose|i: int| 0 <= i < list.len() && list[i] == a;
        assert(rows[i + 1] == address::address_text(a));
    }
    assert forall|i: int, j: int|
        #![trigger rows[i], rows[j]]
        1 <= i < j < rows.len() implies text_comes_before(rows[i], rows[j]) by {
        assert(listing::comes_before(list[i - 1], list[j - 1]));
        lemma_rows_ordered(list[i - 1], list[j - 1]);
    }
}

/// The name of a part's file starts with the directory and the name of the chain, whatever the
/// chain.
pub proof fn law_file_name_starts_with_the_chain(
    chain: Seq<char>,
    part_num: u32,
    start_block: u64,
    end_block: u64,
)
    ensures
        ({
            let name = file_name_text(chain, part_num, start_block, end_block);
            &&& name.len() > 15 + chain.len()
            &&& name.take(7) == "output/"@
            &&& name.subrange(7, 7 + chain.len() as int) == chain
            &&& name.subrange(7 + chain.len() as int, 15 + chain.len() as int) == "_blocks_"@
        }),
{
    reveal_strlit("output/");
    reveal_strlit("_blocks_");
    reveal_strlit(".csv.gz");
    let name = file_name_text(chain, part_num, start_block, end_block);
    assert(name.take(7) =~= "output/"@);
    assert(name.subrange(7, 7 + chain.len() as int) =~= chain);
    assert(name.subrange(7 + chain.len() as int, 15 + chain.len() as int) =~= "_blocks_"@);
}

/// Behind the name of the chain stand the first block, the last block and, with three digits at
/// least, the number of the part, and then the kind of the file.
pub proof fn law_file_name_tells_blocks_and_part(
    chain: Seq<char>,
    part_num: u32,
    start_block: u64,
    end_block: u64,
)
    ensures
        exists|s: Seq<char>, e: Seq<char>, p: Seq<char>|
            file_name_text(chain, part_num, start_block, end_block) == #[trigger] (("output/"@
                + chain + "_blocks_"@) + (s + "_to_"@ + e + "_part_"@ + p + ".csv.gz"@))
                && text::all_decimal_digits(s) && text::decimal_value(s) == start_block && s.len()
                > 0 && (s.len() > 1 ==> s[0] != '0') && text::all_decimal_digits(e)
                && text::decimal_value(e) == end_block && e.len() > 0 && (e.len() > 1 ==> e[0]
                != '0') && text::all_decimal_digits(p) && text::decimal_value(p) == part_num
                && p.len() >= 3 && (p.len() > 3 ==> p[0] != '0'),
{
    let s = text::decimal_text(start_block as nat);
    let e = text::decimal_text(end_block as nat);
    let p = text::three_digits_text(part_num as nat);
    text::law_decimal_reads_back(start_block as nat);
    text::law_decimal_reads_back(end_block as nat);
    text::law_three_digits_reads_back(part_num as nat);
    text::law_notation_is_short(start_block as nat);
    text::law_notation_is_short(end_block as nat);
    text::law_notation_is_short(part_num as nat);
    assert(file_name_text(chain, part_num, start_block, end_block) =~= ("output/"@ + chain
        + "_blocks_"@) + (s + "_to_"@ + e + "_part_"@ + p + ".csv.gz"@));
}

/// For the same part and blocks, the files of two chains with different names have different
/// names.
pub proof fn law_files_of_chains_differ(
    chain1: Seq<char>,
    chain2: Seq<char>,
    part_num: u32,
    start_block: u64,
    end_block: u64,
)
    requires
        chain1 != chain2,
    ensures
        file_name_text(chain1, part_num, start_block, end_block) != file_name_text(
            chain2,
            part_num,
            start_block,
            end_block,
        ),
{
    let name1 = file_name_text(chain1, part_num, start_block, end_block);
    let name2 = file_name_text(chain2, part_num, start_block, end_block);
    law_file_name_starts_with_the_chain(chain1, part_num, start_block, end_block);
    law_file_name_starts_with_the_chain(chain2, part_num, start_block, end_block);
    if name1 == name2 {
        assert(name1.len() - chain1.len() == name2.len() - chain2.len());
        assert(chain1 =~= chain2);
    }
}

/// Every row of a file behind its header is `0x` and forty lower case digits, and reads as an
/// address of the set; every address of the set has its row.
pub proof fn law_rows_are_addresses(addresses: Set<Seq<u8>>, i: int, k: int)
    requires
        is_file_content(addresses),
        1 <= i < file_rows(addresses).len(),
    ensures
        file_rows(addresses)[i].len() == 42,
        file_rows(addresses)[i][0] == '0',
        file_rows(addresses)[i][1] == 'x',
        2 <= k < 42 ==> "0123456789abcdef"@.contains(file_rows(addresses)[i][k]),
        address::address_value(file_rows(addresses)[i]) matches Some(a) && addresses.contains(a),
{
    law_file_holds_the_set(addresses);
    let a = listing::listing(addresses)[i - 1];
    assert(addresses.contains(a) && a.len() == 20);
    assert(file_rows(addresses)[i] == address::address_text(a));
    address::law_row_notation(a, k);
    assert(address::address_value(file_rows(addresses)[i]) == Some(a));
}

} // verus!
