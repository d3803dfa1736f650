//! The endpoints of each chain.

use vstd::prelude::*;
use vstd::utf8::is_ascii_chars;

use crate::text;

verus! {

/// The lower case form of a text, as Unicode defines it.
pub uninterp spec fn lowercase_text(s: Seq<char>) -> Seq<char>;

/// `s` with each of the letters `A` to `Z` in lower case.
pub open spec fn ascii_lowered(s: Seq<char>) -> Seq<char> {
    Seq::new(
        s.len(),
        |i: int|
            if 'A' <= s[i] <= 'Z' {
                (s[i] as int + 32) as char
            } else {
                s[i]
            },
    )
}

/// `str::to_lowercase` gives the lower case form of the text. Of a text of ASCII characters
/// that is the text with the letters `A` to `Z` in lower case; of other texts it is only named.
pub assume_specification[ str::to_lowercase ](s: &str) -> (res: String)
    ensures
        res@ == lowercase_text(s@),
        is_ascii_chars(s@) ==> res@ == ascii_lowered(s@),
;

/// The endpoints of the chain of that name, in the order of preference. Names are in lower
/// case; a name that stands for no chain gets a short list of BNB Smart Chain endpoints.
pub open spec fn endpoints(name: Seq<char>) -> Seq<Seq<char>> {
    if name == "bnb"@ || name == "bsc"@ {
        seq![
            "https://bsc-dataseed.binance.org/"@,
            "https://bsc-dataseed1.binance.org/"@,
            "https://bsc-dataseed2.binance.org/"@,
            "https://bsc-dataseed.bnbchain.org"@,
            "https://bsc-dataseed1.bnbchain.org"@,
            "https://bsc-dataseed2.bnbchain.org"@,
            "https://bsc-dataseed1.defibit.io/"@,
            "https://bsc-dataseed2.defibit.io/"@,
            "https://bsc-dataseed1.ninicoin.io/"@,
            "https://bsc-dataseed2.ninicoin.io/"@,
            "https://bsc.drpc.org"@,
            "https://bsc.meowrpc.com"@,
        ]
    } else if name == "ethereum"@ || name == "eth"@ {
        seq![
            "https://cloudflare-eth.com"@,
            "https://eth.drpc.org"@,
            "https://rpc.payload.de"@,
            "https://eth.merkle.io"@,
        ]
    } else if name == "polygon"@ || name == "matic"@ {
        seq![
            "https://polygon-rpc.com"@,
            "https://polygon.drpc.org"@,
            "https://polygon.meowrpc.com"@,
        ]
    } else if name == "arbitrum"@ || name == "arb"@ {
        seq![
            "https://arb1.arbitrum.io/rpc"@,
            "https://arbitrum.drpc.org"@,
            "https://arbitrum.meowrpc.com"@,
        ]
    } else if name == "base"@ {
        seq![
            "https://mainnet.base.org"@,
            "https://base.drpc.org"@,
            "https://base.meowrpc.com"@,
        ]
    } else if name == "optimism"@ || name == "op"@ {
        seq![
            "https://mainnet.optimism.io"@,
            "https://optimism.drpc.org"@,
            "https://optimism.meowrpc.com"@,
        ]
    } else if name == "avalanche_c"@ || name == "avalanche"@ || name == "avax"@ {
        seq![
            "https://api.avax.network/ext/bc/C/rpc"@,
            "https://avalanche.drpc.org"@,
        ]
    } else {
        seq![
            "https://bsc-dataseed.binance.org/"@,
            "https://bsc-dataseed1.binance.org/"@,
            "https://bsc-dataseed.bnbchain.org"@,
            "https://bsc-dataseed1.defibit.io/"@,
            "https://bsc-dataseed1.ninicoin.io/"@,
        ]
    }
}

/// Whether the two texts are equal.
fn same(name: &str, other: &str) -> (res: bool)
    ensures
        res == (name@ == other@),
{
    name.to_owned() == other.to_owned()
}

/// The endpoints of the chain of that name, which is taken in lower case.
pub fn endpoints_for(name: &str) -> (res: Vec<String>)
    ensures
        text::texts(res@) == endpoints(name@),
{
    let list: Vec<String> = if same(name, "bnb") || same(name, "bsc") {
        vec![
            "https://bsc-dataseed.binance.org/".to_owned(),
            "https://bsc-dataseed1.binance.org/".to_owned(),
            "https://bsc-dataseed2.binance.org/".to_owned(),
            "https://bsc-dataseed.bnbchain.org".to_owned(),
            "https://bsc-dataseed1.bnbchain.org".to_owned(),
            "https://bsc-dataseed2.bnbchain.org".to_owned(),
            "https://bsc-dataseed1.defibit.io/".to_owned(),
            "https://bsc-dataseed2.defibit.io/".to_owned(),
            "https://bsc-dataseed1.ninicoin.io/".to_owned(),
            "https://bsc-dataseed2.ninicoin.io/".to_owned(),
            "https://bsc.drpc.org".to_owned(),
            "https://bsc.meowrpc.com".to_owned(),
        ]
    } else if same(name, "ethereum") || same(name, "eth") {
        vec![
            "https://cloudflare-eth.com".to_owned(),
            "https://eth.drpc.org".to_owned(),
            "https://rpc.payload.de".to_owned(),
            "https://eth.merkle.io".to_owned(),
        ]
    } else if same(name, "polygon") || same(name, "matic") {
        vec![
            "https://polygon-rpc.com".to_owned(),
            "https://polygon.drpc.org".to_owned(),
            "https://polygon.meowrpc.com".to_owned(),
        ]
    } else if same(name, "arbitrum") || same(name, "arb") {
        vec![
            "https://arb1.arbitrum.io/rpc".to_owned(),
            "https://arbitrum.drpc.org".to_owned(),
            "https://arbitrum.meowrpc.com".to_owned(),
        ]
    } else if same(name, "base") {
        vec![
            "https://mainnet.base.org".to_owned(),
            "https://base.drpc.org".to_owned(),
            "https://base.meowrpc.com".to_owned(),
        ]
    } else if same(name, "optimism") || same(name, "op") {
        vec![
            "https://mainnet.optimism.io".to_owned(),
            "https://optimism.drpc.org".to_owned(),
            "https://optimism.meowrpc.com".to_owned(),
        ]
    } else if same(name, "avalanche_c") || same(name, "avalanche") || same(name, "avax") {
        vec![
            "https://api.avax.network/ext/bc/C/rpc".to_owned(),
            "https://avalanche.drpc.org".to_owned(),
        ]
    } else {
        vec![
            "https://bsc-dataseed.binance.org/".to_owned(),
            "https://bsc-dataseed1.binance.org/".to_owned(),
            "https://bsc-dataseed.bnbchain.org".to_owned(),
            "https://bsc-dataseed1.defibit.io/".to_owned(),
            "https://bsc-dataseed1.ninicoin.io/".to_owned(),
        ]
    };
    assert(text::texts(list@) =~= endpoints(name@));
    list
}

/// The endpoints of a chain, whatever the case of the letters in its name.
pub fn rpc_list(chain: &str) -> (res: Vec<String>)
    ensures
        text::texts(res@) == endpoints(lowercase_text(chain@)),
        is_ascii_chars(chain@) ==> text::texts(res@) == endpoints(ascii_lowered(chain@)),
        res@.len() > 0,
{
    let name = chain.to_lowercase();
    let list = endpoints_for(name.as_str());
    assert(text::texts(list@).len() == list@.len());
    list
}

/// A name that stands for no chain gets the short list, whatever it is.
pub proof fn law_unknown_names_get_the_short_list(name: Seq<char>)
    requires
        name != "bnb"@ && name != "bsc"@,
        name != "ethereum"@ && name != "eth"@,
        name != "polygon"@ && name != "matic"@,
        name != "arbitrum"@ && name != "arb"@,
        name != "base"@,
        name != "optimism"@ && name != "op"@,
        name != "avalanche_c"@ && name != "avalanche"@ && name != "avax"@,
    ensures
        endpoints(name).len() == 5,
        endpoints(name)[0] == "https://bsc-dataseed.binance.org/"@,
        endpoints(name)[1] == "https://bsc-dataseed1.binance.org/"@,
        endpoints(name)[2] == "https://bsc-dataseed.bnbchain.org"@,
        endpoints(name)[3] == "https://bsc-dataseed1.defibit.io/"@,
        endpoints(name)[4] == "https://bsc-dataseed1.ninicoin.io/"@,
{
}

/// Every chain has an endpoint, and the names of one chain have the same ones.
pub proof fn law_names_of_a_chain(name: Seq<char>)
    ensures
        endpoints(name).len() >= 2,
        endpoints("bnb"@) == endpoints("bsc"@),
        endpoints("ethereum"@) == endpoints("eth"@),
        endpoints("polygon"@) == endpoints("matic"@),
        endpoints("arbitrum"@) == endpoints("arb"@),
        endpoints("optimism"@) == endpoints("op"@),
        endpoints("avalanche_c"@) == endpoints("avalanche"@),
        endpoints("avalanche_c"@) == endpoints("avax"@),
{
    reveal_strlit("bnb");
    reveal_strlit("bsc");
    reveal_strlit("ethereum");
    reveal_strlit("eth");
    reveal_strlit("polygon");
    reveal_strlit("matic");
    reveal_strlit("arbitrum");
    reveal_strlit("arb");
    reveal_strlit("base");
    reveal_strlit("optimism");
    reveal_strlit("op");
    reveal_strlit("avalanche_c");
    reveal_strlit("avalanche");
    reveal_strlit("avax");
    assert("eth"@[0] == 'e' && "arb"@[0] == 'a' && "bnb"@[0] == 'b' && "bsc"@[0] == 'b');
    assert("matic"@[0] == 'm' && "polygon"@[0] == 'p' && "base"@[0] == 'b');
    assert("avax"@[1] == 'v' && "avax"@[0] == 'a' && "base"@[1] == 'a');
    assert("ethereum"@[0] == 'e' && "optimism"@[0] == 'o' && "arbitrum"@[0] == 'a');
    assert("arbitrum"@[1] == 'r' && "avalanche"@[1] == 'v' && "avalanche_c"@[1] == 'v');
    assert("op"@[0] == 'o');
}

/// Letters of the alphabet are put in lower case, and everything else is left as it is.
pub proof fn law_letters_are_lowered(s: Seq<char>, i: int, k: int)
    requires
        0 <= i < s.len(),
        0 <= k < 26,
    ensures
        ascii_lowered(s).len() == s.len(),
        s[i] == "ABCDEFGHIJKLMNOPQRSTUVWXYZ"@[k] ==> ascii_lowered(s)[i]
            == "abcdefghijklmnopqrstuvwxyz"@[k],
        !"ABCDEFGHIJKLMNOPQRSTUVWXYZ"@.contains(s[i]) ==> ascii_lowered(s)[i] == s[i],
{
    reveal_strlit("ABCDEFGHIJKLMNOPQRSTUVWXYZ");
    reveal_strlit("abcdefghijklmnopqrstuvwxyz");
    if 'A' <= s[i] <= 'Z' {
        let n = s[i] as int - 65;
        assert("ABCDEFGHIJKLMNOPQRSTUVWXYZ"@[n] == s[i]);
    }
}

} // verus!
