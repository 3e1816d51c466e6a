//! Synthetic tag data for exercising the codecs.
use vstd::prelude::*;

verus! {

/// The tags that `MappyComparisonRunner::generate_test_tags` cycles through.
pub open spec fn comparison_base() -> Seq<Seq<char>> {
    seq![
        "2007"@, "3_toes"@, "4_fingers"@, "anthro"@, "biped"@,
        "black_and_white"@, "breasts"@, "canid"@, "canine"@, "claws"@,
        "collar"@, "dialogue"@, "domestic_dog"@, "english_text"@, "eyewear"@,
        "fangs"@, "feet"@, "female"@, "fingers"@, "genitals"@,
    ]
}

/// The tags that `MLBenchmarkRunner::generate_ml_test_data` draws from.
pub open spec fn ml_base() -> Seq<Seq<char>> {
    seq![
        "anthro"@, "biped"@, "canid"@, "canine"@, "claws"@, "collar"@,
        "dialogue"@, "domestic_dog"@, "english_text"@, "eyewear"@,
        "fangs"@, "feet"@, "female"@, "fingers"@, "genitals"@, "glasses"@,
        "humanoid_genitalia"@, "humanoid_vulva"@, "inks"@, "legs_together"@,
        "lineart"@, "mammal"@, "monochrome"@, "nipples"@, "nude"@,
        "pen(artwork)"@, "pince-nez"@, "rainedog"@, "razor"@, "sharp_teeth"@,
        "shaving"@, "signature"@, "simple_background"@, "small_breasts"@,
        "solo"@, "standing"@, "stubble"@, "tail"@, "teeth"@, "text"@,
        "toe_claws"@, "toes"@, "tools"@, "traditionalmedia(artwork)"@,
        "vulva"@, "white_background"@,
    ]
}

/// Produces storage-comparison inputs.
pub struct MappyComparisonRunner;

impl MappyComparisonRunner {
    /// `count` tags cycling through a fixed list of twenty.
    pub fn generate_test_tags(count: usize) -> (r: Vec<String>)
        ensures
            r@.len() == count,
            forall|i: int| 0 <= i < count ==> (#[trigger] r@[i])@ == comparison_base()[i % 20],
    {
        let base: Vec<&str> = vec![
            "2007", "3_toes", "4_fingers", "anthro", "biped",
            "black_and_white", "breasts", "canid", "canine", "claws",
            "collar", "dialogue", "domestic_dog", "english_text", "eyewear",
            "fangs", "feet", "female", "fingers", "genitals",
        ];
        assert(base@.len() == 20);
        assert forall|k: int| 0 <= k < 20 implies (#[trigger] base@[k])@ == comparison_base()[k] by {}
        let mut r: Vec<String> = Vec::new();
        let mut i: usize = 0;
        while i < count
            invariant
                base@.len() == 20,
                forall|k: int| 0 <= k < 20 ==> (#[trigger] base@[k])@ == comparison_base()[k],
                i <= count,
                r@.len() == i,
                forall|q: int| 0 <= q < i ==> (#[trigger] r@[q])@ == comparison_base()[q % 20],
            decreases count - i,
        {
            let t: &str = base[i % 20];
            r.push(t.to_string());
            i = i + 1;
        }
        r
    }
}

/// Produces inputs for tag-set tasks.
pub struct MLBenchmarkRunner;

impl MLBenchmarkRunner {
    /// `num_items` tag sets; set `i` holds `tags_per_item + i % 5` tags, its
    /// `j`-th being entry `(7 i + j) % 46` of a fixed list.
    pub fn generate_ml_test_data(num_items: usize, tags_per_item: usize) -> (r: Vec<Vec<String>>)
        requires
            tags_per_item + 4 <= usize::MAX,
        ensures
            r@.len() == num_items,
            forall|i: int|
                0 <= i < num_items ==> (#[trigger] r@[i])@.len() == tags_per_item + i % 5,
            forall|i: int, j: int|
                0 <= i < num_items && 0 <= j < tags_per_item + i % 5 ==> (#[trigger] r@[i]@[j])@
                    == ml_base()[(7 * i + j) % 46],
    {
        let base: Vec<&str> = vec![
            "anthro", "biped", "canid", "canine", "claws", "collar",
            "dialogue", "domestic_dog", "english_text", "eyewear",
            "fangs", "feet", "female", "fingers", "genitals", "glasses",
            "humanoid_genitalia", "humanoid_vulva", "inks", "legs_together",
            "lineart", "mammal", "monochrome", "nipples", "nude",
            "pen(artwork)", "pince-nez", "rainedog", "razor", "sharp_teeth",
            "shaving", "signature", "simple_background", "small_breasts",
            "solo", "standing", "stubble", "tail", "teeth", "text",
            "toe_claws", "toes", "tools", "traditionalmedia(artwork)",
            "vulva", "white_background",
        ];
        assert(base@.len() == 46);
        assert forall|k: int| 0 <= k < 46 implies (#[trigger] base@[k])@ == ml_base()[k] by {}
        let mut r: Vec<Vec<String>> = Vec::new();
        let mut i: usize = 0;
        while i < num_items
            invariant
                base@.len() == 46,
                forall|k: int| 0 <= k < 46 ==> (#[trigger] base@[k])@ == ml_base()[k],
                tags_per_item + 4 <= usize::MAX,
                i <= num_items,
                r@.len() == i,
                forall|a: int| 0 <= a < i ==> (#[trigger] r@[a])@.len() == tags_per_item + a % 5,
                forall|a: int, j: int|
                    0 <= a < i && 0 <= j < tags_per_item + a % 5 ==> (#[trigger] r@[a]@[j])@
                        == ml_base()[(7 * a + j) % 46],
            decreases num_items - i,
        {
            let n: usize = tags_per_item + i % 5;
            let mut set: Vec<String> = Vec::new();
            let mut j: usize = 0;
            let start: usize = (i % 46) * 7 % 46;
            proof { lemma_start(i as int); }
            while j < n
                invariant
                    base@.len() == 46,
                    forall|k: int| 0 <= k < 46 ==> (#[trigger] base@[k])@ == ml_base()[k],
                    start == (7 * i) % 46,
                    j <= n,
                    set@.len() == j,
                    forall|q: int| 0 <= q < j ==> (#[trigger] set@[q])@ == ml_base()[(7 * i + q) % 46],
                decreases n - j,
            {
                let k: usize = (start + j % 46) % 46;
                proof { lemma_index(i as int, j as int); }
                let t: &str = base[k];
                set.push(t.to_string());
                j = j + 1;
            }
            r.push(set);
            i = i + 1;
        }
        r
    }
}

proof fn lemma_start(i: int)
    requires
        i >= 0,
    ensures
        (i % 46) * 7 % 46 == (7 * i) % 46,
{
    vstd::arithmetic::div_mod::lemma_mul_mod_noop_left(i, 7, 46);
    assert((i % 46) * 7 == 7 * (i % 46)) by (nonlinear_arith);
    assert(i * 7 == 7 * i) by (nonlinear_arith);
}

proof fn lemma_index(i: int, j: int)
    requires
        i >= 0,
        j >= 0,
    ensures
        ((7 * i) % 46 + j % 46) % 46 == (7 * i + j) % 46,
{
    vstd::arithmetic::div_mod::lemma_add_mod_noop(7 * i, j, 46);
}

} // verus!
