//! Tests of the Pokémon lookups: finding by name, counting and picking by
//! generation, generation labels, and the height argument.

use pokemon_icat::pokedex::check_height;
use pokemon_icat::pokedex::count_matching_pokemon;
use pokemon_icat::pokedex::gen_label;
use pokemon_icat::pokedex::get_pokemon;
use pokemon_icat::pokedex::is_known_generation;
use pokemon_icat::pokedex::nth_matching_pokemon;
use pokemon_icat::pokedex::parse_u32;
use pokemon_icat::pokedex::str_eq;
use pokemon_icat::pokedex::Pokemon;

fn sample() -> Vec<Pokemon> {
    vec![
        Pokemon {
            name: "bulbasaur".to_owned(),
            generation: "1".to_owned(),
            height: 7,
            typing: "4 5".to_owned(),
        },
        Pokemon {
            name: "cyndaquil".to_owned(),
            generation: "2".to_owned(),
            height: 5,
            typing: "1".to_owned(),
        },
        Pokemon {
            name: "treecko".to_owned(),
            generation: "3".to_owned(),
            height: 5,
            typing: "4".to_owned(),
        },
        Pokemon {
            name: "chikorita".to_owned(),
            generation: "2".to_owned(),
            height: 9,
            typing: "4".to_owned(),
        },
    ]
}

#[test]
fn get_pokemon_finds_by_name() {
    let pokemons = sample();
    let p = get_pokemon("treecko", &pokemons);
    assert_eq!(p.name, "treecko");
    assert_eq!(p.generation, "3");
    assert_eq!(p.height, 5);
}

#[test]
fn counting_and_picking_by_generation() {
    let pokemons = sample();
    let gens = Some(vec!["2".to_owned()]);
    assert_eq!(count_matching_pokemon(&pokemons, &gens), 2);
    let first = nth_matching_pokemon(&pokemons, &gens, 0);
    let second = nth_matching_pokemon(&pokemons, &gens, 1);
    assert_eq!(first.name, "cyndaquil");
    assert_eq!(second.name, "chikorita");
    // With no chosen set every entry qualifies.
    assert_eq!(count_matching_pokemon(&pokemons, &None), 4);
    assert_eq!(nth_matching_pokemon(&pokemons, &None, 3).name, "chikorita");
}

#[test]
fn generation_labels() {
    assert_eq!(gen_label("1"), "I Generation");
    assert_eq!(gen_label("8"), "VIII Generation");
    assert_eq!(gen_label("Hisui"), "Hisui Region");
    assert_eq!(gen_label("9"), "IX Generation");
    assert!(is_known_generation("5"));
    assert!(!is_known_generation("10"));
    assert!(!is_known_generation(""));
}

#[test]
fn height_argument_validation() {
    assert_eq!(check_height("17"), Ok(17));
    assert_eq!(check_height("2"), Ok(2));
    assert_eq!(check_height("+30"), Ok(30));
    assert_eq!(
        check_height("1"),
        Err(String::from("height must be at least 2."))
    );
    assert_eq!(
        check_height("abc"),
        Err(String::from("height must be at least 2."))
    );
    assert_eq!(
        check_height(""),
        Err(String::from("height must be at least 2."))
    );
    assert_eq!(
        check_height("-3"),
        Err(String::from("height must be at least 2."))
    );
    assert_eq!(
        check_height("99999999999999999999"),
        Err(String::from("height must be at least 2."))
    );
}

#[test]
fn parse_u32_exactness() {
    assert_eq!(parse_u32("0"), Some(0));
    assert_eq!(parse_u32("4294967295"), Some(u32::MAX));
    assert_eq!(parse_u32("4294967296"), None);
    assert_eq!(parse_u32("+7"), Some(7));
    assert_eq!(parse_u32("+"), None);
    assert_eq!(parse_u32("1 "), None);
    assert_eq!(parse_u32(" 1"), None);
}

#[test]
fn str_eq_compares_contents() {
    assert!(str_eq("abc", "abc"));
    assert!(!str_eq("abc", "abd"));
    assert!(!str_eq("abc", "ab"));
    assert!(str_eq("", ""));
    assert!(str_eq("日本語", "日本語"));
    assert!(!str_eq("日本語", "日本誤"));
}
