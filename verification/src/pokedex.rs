//! The Pokémon lookups around the viewer: finding an entry by name, picking
//! among the entries of chosen generations, mapping a generation tag to its
//! label, and validating the height argument.

use vstd::prelude::*;

use vstd::string::StringSliceAdditionalSpecFns;
use vstd::utf8::encode_utf8_decode_utf8;

verus! {

/// One entry of the Pokémon data set: its name, the generation it belongs
/// to, its height, and its type list (indices separated by spaces).
pub struct Pokemon {
    pub name: String,
    pub generation: String,
    pub height: u32,
    pub typing: String,
}

impl Clone for Pokemon {
    fn clone(&self) -> (r: Self)
        ensures
            r == *self,
    {
        Pokemon {
            name: self.name.clone(),
            generation: self.generation.clone(),
            height: self.height,
            typing: self.typing.clone(),
        }
    }
}

/// Two string slices are equal exactly when their character views are.
pub fn str_eq(a: &str, b: &str) -> (r: bool)
    ensures
        r == (a@ == b@),
{
    proof {
        encode_utf8_decode_utf8(a@);
        encode_utf8_decode_utf8(b@);
    }
    let ab = a.as_bytes();
    let bb = b.as_bytes();
    if ab.len() != bb.len() {
        return false;
    }
    let n = ab.len();
    let mut i: usize = 0;
    while i < n
        invariant
            n == ab@.len() == bb@.len(),
            i <= n,
            ab@ == a.spec_bytes(),
            bb@ == b.spec_bytes(),
            forall|j: int| 0 <= j < i ==> ab@[j] == bb@[j],
        decreases n - i,
    {
        if ab[i] != bb[i] {
            proof {
                assert(a.spec_bytes() != b.spec_bytes());
            }
            return false;
        }
        i = i + 1;
    }
    proof {
        assert(a.spec_bytes() =~= b.spec_bytes());
        encode_utf8_decode_utf8(a@);
        encode_utf8_decode_utf8(b@);
    }
    true
}

/// Does the entry belong to one of the chosen generations?  With no chosen
/// set, every entry qualifies.
pub open spec fn spec_matches(p: Pokemon, gens: Option<Vec<String>>) -> bool {
    match gens {
        None => true,
        Some(gs) => exists|k: int| 0 <= k < gs@.len() && #[trigger] gs@[k]@ == p.generation@,
    }
}

/// How many of the entries qualify.
pub open spec fn spec_match_count(s: Seq<Pokemon>, gens: Option<Vec<String>>) -> nat
    decreases s.len(),
{
    if s.len() == 0 {
        0
    } else {
        spec_match_count(s.drop_last(), gens) + (if spec_matches(s.last(), gens) {
            1nat
        } else {
            0nat
        })
    }
}

/// The number of qualifying entries never exceeds the number of entries.
proof fn lemma_match_count_le(s: Seq<Pokemon>, gens: Option<Vec<String>>)
    ensures
        spec_match_count(s, gens) <= s.len(),
    decreases s.len(),
{
    if s.len() > 0 {
        lemma_match_count_le(s.drop_last(), gens);
    }
}

/// Is the generation tag `g` one of the chosen ones?
fn contains_generation(gs: &Vec<String>, g: &String) -> (r: bool)
    ensures
        r == exists|k: int| 0 <= k < gs@.len() && #[trigger] gs@[k]@ == g@,
{
    let n = gs.len();
    let mut i: usize = 0;
    while i < n
        invariant
            n == gs@.len(),
            i <= n,
            forall|k: int| 0 <= k < i ==> #[trigger] gs@[k]@ != g@,
        decreases n - i,
    {
        if str_eq(gs[i].as_str(), g.as_str()) {
            return true;
        }
        i = i + 1;
    }
    false
}

/// Does the entry qualify under the chosen generations?
fn matches_generations(p: &Pokemon, gens: &Option<Vec<String>>) -> (r: bool)
    ensures
        r == spec_matches(*p, *gens),
{
    match gens {
        None => true,
        Some(gs) => contains_generation(gs, &p.generation),
    }
}

/// Finds the entry with the given name.  The name must be present; the
/// first entry carrying it is returned.
pub fn get_pokemon(pokemon_name: &str, pokemons: &[Pokemon]) -> (r: Pokemon)
    requires
        exists|i: int|
            0 <= i < pokemons@.len() && #[trigger] pokemons@[i].name@ == pokemon_name@,
    ensures
        exists|i: int|
            {
                &&& 0 <= i < pokemons@.len()
                &&& #[trigger] pokemons@[i].name@ == pokemon_name@
                &&& r == pokemons@[i]
                &&& forall|j: int| 0 <= j < i ==> #[trigger] pokemons@[j].name@ != pokemon_name@
            },
{
    let n = pokemons.len();
    let mut i: usize = 0;
    loop
        invariant
            n == pokemons@.len(),
            i < n,
            exists|k: int|
                0 <= k < pokemons@.len() && #[trigger] pokemons@[k].name@ == pokemon_name@,
            forall|j: int| 0 <= j < i ==> #[trigger] pokemons@[j].name@ != pokemon_name@,
        decreases n - i,
    {
        if str_eq(pokemons[i].name.as_str(), pokemon_name) {
            return pokemons[i].clone();
        }
        proof {
            if i + 1 == n {
                assert(forall|j: int|
                    0 <= j < n ==> #[trigger] pokemons@[j].name@ != pokemon_name@);
                assert(false);
            }
        }
        i = i + 1;
    }
}

/// How many entries belong to one of the chosen generations (all of them,
/// when no set was chosen).
pub fn count_matching_pokemon(pokemons: &[Pokemon], gens: &Option<Vec<String>>) -> (r: usize)
    ensures
        r == spec_match_count(pokemons@, *gens),
{
    let n = pokemons.len();
    let mut count: usize = 0;
    let mut i: usize = 0;
    while i < n
        invariant
            n == pokemons@.len(),
            i <= n,
            count == spec_match_count(pokemons@.take(i as int), *gens),
            count <= i,
        decreases n - i,
    {
        proof {
            assert(pokemons@.take(i + 1).drop_last() =~= pokemons@.take(i as int));
            assert(pokemons@.take(i + 1).last() == pokemons@[i as int]);
        }
        if matches_generations(&pokemons[i], gens) {
            count = count + 1;
        }
        i = i + 1;
    }
    proof {
        assert(pokemons@.take(n as int) =~= pokemons@);
    }
    count
}

/// The `n`-th (0-based) entry among those of the chosen generations.  A
/// caller that draws `n` uniformly below the matching count picks uniformly
/// among the qualifying entries.
pub fn nth_matching_pokemon(pokemons: &[Pokemon], gens: &Option<Vec<String>>, n: usize) -> (r:
    Pokemon)
    requires
        n < spec_match_count(pokemons@, *gens),
    ensures
        exists|i: int|
            {
                &&& 0 <= i < pokemons@.len()
                &&& #[trigger] spec_matches(pokemons@[i], *gens)
                &&& r == pokemons@[i]
                &&& spec_match_count(pokemons@.take(i), *gens) == n
            },
{
    let len = pokemons.len();
    let mut seen: usize = 0;
    let mut i: usize = 0;
    proof {
        lemma_match_count_le(pokemons@, *gens);
    }
    loop
        invariant
            len == pokemons@.len(),
            i <= len,
            seen == spec_match_count(pokemons@.take(i as int), *gens),
            seen <= n,
            n < spec_match_count(pokemons@, *gens),
            i < len,
        decreases len - i,
    {
        proof {
            assert(pokemons@.take(i + 1).drop_last() =~= pokemons@.take(i as int));
            assert(pokemons@.take(i + 1).last() == pokemons@[i as int]);
        }
        if matches_generations(&pokemons[i], gens) {
            if seen == n {
                return pokemons[i].clone();
            }
            seen = seen + 1;
        }
        proof {
            if i + 1 == len {
                assert(pokemons@.take(len as int) =~= pokemons@);
                assert(false);
            }
        }
        i = i + 1;
    }
}

// ---------------------------------------------------------------------
// Generation labels.

/// The label shown for each supported generation tag.
pub open spec fn spec_gen_label(g: Seq<char>) -> Option<Seq<char>> {
    if g == "1"@ {
        Some("I Generation"@)
    } else if g == "2"@ {
        Some("II Generation"@)
    } else if g == "3"@ {
        Some("III Generation"@)
    } else if g == "4"@ {
        Some("IV Generation"@)
    } else if g == "5"@ {
        Some("V Generation"@)
    } else if g == "6"@ {
        Some("VI Generation"@)
    } else if g == "7"@ {
        Some("VII Generation"@)
    } else if g == "8"@ {
        Some("VIII Generation"@)
    } else if g == "Hisui"@ {
        Some("Hisui Region"@)
    } else if g == "9"@ {
        Some("IX Generation"@)
    } else {
        None
    }
}

/// The display label of a supported generation tag.
pub fn gen_label(gen: &str) -> (r: &str)
    requires
        (spec_gen_label(gen@) is Some),
    ensures
        Some(r@) == spec_gen_label(gen@),
{
    if str_eq(gen, "1") {
        "I Generation"
    } else if str_eq(gen, "2") {
        "II Generation"
    } else if str_eq(gen, "3") {
        "III Generation"
    } else if str_eq(gen, "4") {
        "IV Generation"
    } else if str_eq(gen, "5") {
        "V Generation"
    } else if str_eq(gen, "6") {
        "VI Generation"
    } else if str_eq(gen, "7") {
        "VII Generation"
    } else if str_eq(gen, "8") {
        "VIII Generation"
    } else if str_eq(gen, "Hisui") {
        "Hisui Region"
    } else if str_eq(gen, "9") {
        "IX Generation"
    } else {
        proof {
            assert(false);
        }
        ""
    }
}

/// Is the tag one of the supported generations?
pub fn is_known_generation(gen: &str) -> (r: bool)
    ensures
        r == (spec_gen_label(gen@) is Some),
{
    str_eq(gen, "1") || str_eq(gen, "2") || str_eq(gen, "3") || str_eq(gen, "4") || str_eq(
        gen,
        "5",
    ) || str_eq(gen, "6") || str_eq(gen, "7") || str_eq(gen, "8") || str_eq(gen, "Hisui")
        || str_eq(gen, "9")
}

// ---------------------------------------------------------------------
// The height argument.

pub open spec fn is_ascii_digit(b: u8) -> bool {
    48 <= b <= 57
}

pub open spec fn all_ascii_digits(s: Seq<u8>) -> bool {
    forall|i: int| 0 <= i < s.len() ==> is_ascii_digit(#[trigger] s[i])
}

/// The number a string of decimal digits denotes.
pub open spec fn spec_numeral(s: Seq<u8>) -> nat
    decreases s.len(),
{
    if s.len() == 0 {
        0
    } else {
        (spec_numeral(s.drop_last()) * 10 + (s.last() - 48)) as nat
    }
}

/// What `u32` a byte string parses to: an optional leading plus sign, then
/// at least one decimal digit, denoting a value that fits.
pub open spec fn spec_parse_u32(s: Seq<u8>) -> Option<u32> {
    let t = if s.len() > 0 && s[0] == 43 {
        s.drop_first()
    } else {
        s
    };
    if t.len() > 0 && all_ascii_digits(t) && spec_numeral(t) <= u32::MAX as nat {
        Some(spec_numeral(t) as u32)
    } else {
        None
    }
}

/// A digit string's prefixes denote no more than the whole string.
proof fn lemma_numeral_prefix_le(s: Seq<u8>, i: int)
    requires
        0 <= i <= s.len(),
        all_ascii_digits(s),
    ensures
        spec_numeral(s.take(i)) <= spec_numeral(s),
    decreases s.len() - i,
{
    if i < s.len() {
        assert(s.take(i + 1).drop_last() =~= s.take(i));
        assert(spec_numeral(s.take(i + 1)) == spec_numeral(s.take(i)) * 10 + (s[i] - 48));
        lemma_numeral_prefix_le(s, i + 1);
    } else {
        assert(s.take(i) =~= s);
    }
}

/// Parses an unsigned decimal number, as the height argument uses it.
pub fn parse_u32(s: &str) -> (r: Option<u32>)
    ensures
        r == spec_parse_u32(s.spec_bytes()),
{
    let bytes = s.as_bytes();
    let blen = bytes.len();
    let mut start: usize = 0;
    if blen > 0 && bytes[0] == 43u8 {
        start = 1;
    }
    let ghost t = if s.spec_bytes().len() > 0 && s.spec_bytes()[0] == 43 {
        s.spec_bytes().drop_first()
    } else {
        s.spec_bytes()
    };
    proof {
        assert(t =~= bytes@.subrange(start as int, blen as int));
    }
    if start == blen {
        return None;
    }
    let mut acc: u64 = 0;
    let mut i: usize = start;
    while i < blen
        invariant
            blen == bytes@.len(),
            bytes@ == s.spec_bytes(),
            start <= i <= blen,
            start < blen,
            t =~= bytes@.subrange(start as int, blen as int),
            t == (if s.spec_bytes().len() > 0 && s.spec_bytes()[0] == 43 {
                s.spec_bytes().drop_first()
            } else {
                s.spec_bytes()
            }),
            all_ascii_digits(t.take(i - start)),
            acc == spec_numeral(t.take(i - start)),
            acc <= u32::MAX,
        decreases blen - i,
    {
        let b = bytes[i];
        if b < 48 || b > 57 {
            proof {
                assert(0 <= i - start < t.len());
                assert(t[i - start] == b);
                assert(!is_ascii_digit(t[i - start]));
                assert(!all_ascii_digits(t));
                assert(spec_parse_u32(s.spec_bytes()) is None);
            }
            return None;
        }
        proof {
            assert(t.take(i - start + 1).drop_last() =~= t.take(i - start));
            assert(t.take(i - start + 1).last() == t[i - start]);
            assert(t[i - start] == b);
        }
        acc = acc * 10 + ((b - 48) as u64);
        if acc > 0xFFFF_FFFF {
            proof {
                // The prefix already exceeds the range, and appending
                // further digits can only grow the value.
                assert(acc == spec_numeral(t.take(i - start + 1)));
                if all_ascii_digits(t) {
                    lemma_numeral_prefix_le(t, i - start + 1);
                    assert(spec_numeral(t) > u32::MAX as nat);
                }
                assert(spec_parse_u32(s.spec_bytes()) is None);
            }
            return None;
        }
        i = i + 1;
    }
    proof {
        assert(t.take((blen - start) as int) =~= t);
    }
    Some(acc as u32)
}

/// Validates the height argument: an unsigned decimal number of at least 2.
pub fn check_height(height: &str) -> (r: Result<u32, String>)
    ensures
        match r {
            Ok(h) => spec_parse_u32(height.spec_bytes()) == Some(h) && h >= 2,
            Err(e) => {
                &&& (spec_parse_u32(height.spec_bytes()) matches Some(h) ==> h < 2)
                &&& e@ == "height must be at least 2."@
            },
        },
{
    match parse_u32(height) {
        Some(h) => {
            if h >= 2 {
                Ok(h)
            } else {
                Err("height must be at least 2.".to_owned())
            }
        },
        None => Err("height must be at least 2.".to_owned()),
    }
}

} // verus!
