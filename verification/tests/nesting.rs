use bracket_odds::bracket::LoadError;
use bracket_odds::loader::read_data;
use bracket_odds::nesting::{nesting_of, shallow, MAX_NESTING};
use toml::Value;

const TWO: &str = "[Players.Ann]\nelo = 1600\ndraw = 1\n[Players.Bob]\nelo = 1400\ndraw = 2\n";

fn key(parts: usize) -> String {
    vec!["a"; parts].join(".")
}

/// Inline tables in inline tables, each the value of a dotted key, below a
/// header.
fn combined(header: usize, tables: usize, parts: usize) -> String {
    let mut text = format!("[[{}]]\nk = ", key(header));
    for _ in 0..tables {
        text.push_str(&format!("{{ {} = ", key(parts)));
    }
    text.push('1');
    for _ in 0..tables {
        text.push_str(" }");
    }
    text.push('\n');
    text
}

/// How many tables and arrays lie around the innermost value.
fn levels(value: &Value) -> usize {
    match value {
        Value::Table(table) => 1 + table.iter().map(|(_, inner)| levels(inner)).max().unwrap_or(0),
        Value::Array(array) => 1 + array.iter().map(levels).max().unwrap_or(0),
        _ => 0,
    }
}

#[test]
fn every_statement_is_counted_by_itself() {
    let mut text = String::new();
    for i in 0..5000 {
        text.push_str(&format!("[Players.\"entrant no. {i}\"] # [{i}]\nelo = {i}\ndraw = {}\n", i + 1));
    }
    assert_eq!(nesting_of(&text), 2);
    assert!(shallow(&text));
    let bracket = read_data(&text).unwrap();
    assert_eq!(bracket.len(), 8192);
    assert_eq!(bracket.iter().filter(|place| place.is_some()).count(), 5000);
}

#[test]
fn the_nesting_of_plain_files() {
    assert_eq!(nesting_of(""), 0);
    assert_eq!(nesting_of("size = 4\nstructure = \"Single Elimination\"\n"), 0);
    assert_eq!(nesting_of("[Players.Ann]\nelo = 1600\ndraw = 1\n"), 2);
    assert_eq!(nesting_of("[Players.\"Ann B. Lee\"]\nelo = 1600\n"), 2);
    assert_eq!(nesting_of("[Players.'O\"Neil [jr.]']\nelo = 1600\n"), 2);
    assert_eq!(nesting_of("  [ Players . \"a\\\"b.c\" ]  # [x.y.z]\nelo = 1600\n"), 2);
    assert_eq!(nesting_of("[[a.b.c]]\n"), 4);
    assert_eq!(nesting_of("[Players]\nAnn = { elo = 1600, draw = 1 }\n"), 1);
    assert_eq!(nesting_of("Players.Ann.elo = 1600\nPlayers.Ann.draw = 1\n"), 2);
    assert_eq!(nesting_of("a = [[1, 2], [3, 4], [5, 6]]\n"), 2);
    assert_eq!(nesting_of("a = [\n  [1, 2],\n  [3, [4]],\n]\nb = [1]\n"), 3);
    assert_eq!(nesting_of("a = 1 # see [[[[x.y.z]]]]\nb = [1]\n"), 1);
    assert_eq!(nesting_of("a = \"[[[[{{{{....\"\nb = [1]\n"), 1);
    assert_eq!(nesting_of("a.b = { c.d.e = [{ f.g = 1 }], h = 2, i.j = 3 }\n"), 7);
}

#[test]
fn dots_count_in_keys_only() {
    assert_eq!(nesting_of("a = 1.5\nb = -0.25e-3\nc = 1979-05-27T07:32:00.999Z\n"), 0);
    let floats: Vec<String> = (0..40).map(|i| format!("{i}.5")).collect();
    let text = format!("{TWO}\n[Tournament]\nodds = [{}]\n", floats.join(", "));
    assert_eq!(nesting_of(&text), 2);
    assert_eq!(read_data(&text).unwrap().len(), 2);
    let entries: Vec<String> = (0..40).map(|i| format!("{{ x.y = {i}.5 }}")).collect();
    let text = format!("{TWO}\n[Tournament]\nodds = [\n  {},\n]\n", entries.join(",\n  "));
    assert_eq!(nesting_of(&text), 3);
    assert_eq!(read_data(&text).unwrap().len(), 2);
    let entries: Vec<String> = (0..40).map(|i| format!("k{i}.v.w = {i}.5")).collect();
    let text = format!("{TWO}\n[Tournament]\nodds = {{ {} }}\n", entries.join(", "));
    assert_eq!(nesting_of(&text), 3);
    assert_eq!(read_data(&text).unwrap().len(), 2);
}

#[test]
fn strings_are_read_as_strings() {
    // escapes
    assert_eq!(nesting_of("a = [\"\\\\\", \"\\\"]\", 1]\nb = [1]\nc = [2]\n"), 1);
    assert_eq!(nesting_of("a = \"x\\ty [\\\" [\"\nb = [[1]]\nc = [1]\n"), 2);
    // three quotes at either end, over several lines
    assert_eq!(nesting_of("a = [\"\"\"x\n]] ' \" \"\" \\\"\"\" [[[\n\"\"\", [1]]\nb.c = [2]\n"), 2);
    assert_eq!(nesting_of("a = \"\"\"x\n[[[\ny\"\"\"\nb = [[1]]\nc = [1]\n"), 2);
    assert_eq!(nesting_of("a = ['''x\n]] \" ' '' \\''', [1]]\nb.c = [2]\n"), 2);
    // one or two quotes before the three that end the string
    assert_eq!(nesting_of("a = [\"\"\"x\"\"\"\"\", [1]]\n"), 2);
    assert_eq!(nesting_of("a = ['''x''''', [1]]\n"), 2);
    // empty strings
    assert_eq!(nesting_of("a = [\"\", '', \"\"\"\"\"\", '''''', [1]]\n\"\".'' = [1]\n"), 2);
}

#[test]
fn the_order_of_the_entrants_does_not_matter() {
    let plain: Vec<String> = (2..=17).map(|i| format!("[Players.p{i}]\nelo = {i}\ndraw = {i}\n")).collect();
    let quoted = "[Players.\"a\\\"b\"]\nelo = 1\ndraw = 1\n";
    let first = format!("{quoted}{}", plain.concat());
    let last = format!("{}{quoted}", plain.concat());
    assert_eq!(nesting_of(&first), 2);
    assert_eq!(nesting_of(&last), 2);
    let bracket = read_data(&first).unwrap();
    assert_eq!(bracket.len(), 32);
    assert_eq!(bracket[0].as_ref().unwrap().name, "a\"b");
    assert_eq!(bracket.iter().filter(|place| place.is_some()).count(), 17);
    assert_eq!(read_data(&last).unwrap(), bracket);
}

#[test]
fn where_the_pass_loses_track_everything_counts() {
    // a string without an end
    assert_eq!(nesting_of("a = [\"x\nb = [1]\nc = [2]\n"), 3);
    assert_eq!(nesting_of("a = 'x\nb = [1.5]\n"), 2);
    // a bracket that closes nothing
    assert_eq!(nesting_of("a = [[1]]], c = [[[2]]]\nb = [1]\n"), 4);
    assert_eq!(nesting_of("a = 1]\nb = [1]\n"), 1);
    assert_eq!(nesting_of("a = [1}\nb = [1]\n"), 2);
    // a brace or a bracket where a key should stand
    assert_eq!(nesting_of("{ a = 1 }\nb = [1]\n"), 1);
    assert_eq!(nesting_of("a = { [b] = [1] }\n"), 2);
    // a second equals sign
    assert_eq!(nesting_of("a = b = [1]\n"), 1);
    // the end of a line in an inline table or a header
    assert_eq!(nesting_of("a = { b = 1,\nc.d = [2] }\n"), 3);
    assert_eq!(nesting_of("[a\nb.c]\n"), 2);
    // more than five quotes in a row in a string between three quotes
    assert_eq!(nesting_of("a = \"\"\"x\"\"\"\"\"\" \nb = [1]\n"), 1);
}

#[test]
fn closing_brackets_in_strings_close_nothing() {
    let mut text = String::from("a = ");
    for _ in 0..200 {
        text.push_str("[\"]\", ");
    }
    text.push('1');
    for _ in 0..200 {
        text.push(']');
    }
    text.push('\n');
    assert_eq!(nesting_of(&text), 200);
    let mut text = String::from("a = [[[[[[[[[[ \"\"\"\n");
    for _ in 0..200 {
        text.push_str("]]]]]]]]]]\n\"\"\", [[[[[[[[[[ \"\"\"\n");
    }
    assert!(nesting_of(&text) > 2000);
    assert_eq!(read_data(&text), Err(LoadError::TooDeep));
}

#[test]
fn what_adds_up_is_turned_down() {
    for (header, tables, parts) in [(79, 78, 79), (79, 20, 79), (20, 19, 40), (1, 79, 79), (1, 2, 20), (40, 1, 2)] {
        let text = combined(header, tables, parts);
        assert!(!shallow(&text));
        assert_eq!(read_data(&text), Err(LoadError::TooDeep));
    }
    let mut text = format!("[{}]\n{} = ", key(79), key(79));
    for _ in 0..39 {
        text.push_str(&format!("[{{ {} = ", key(79)));
    }
    text.push('1');
    for _ in 0..39 {
        text.push_str(" }]");
    }
    text.push('\n');
    assert_eq!(read_data(&text), Err(LoadError::TooDeep));
}

#[test]
fn the_deepest_that_is_accepted() {
    // 31 parts in a header, each an array of tables, and 32 braces and dots
    // in the statement below it
    for (tables, parts) in [(1, 32), (2, 16), (4, 8), (8, 4), (16, 2), (32, 1)] {
        let mut text = String::new();
        for header in 1..=31 {
            text.push_str(&format!("[[{}]]\n", key(header)));
        }
        text.push_str(&combined(31, tables, parts));
        assert_eq!(nesting_of(&text), MAX_NESTING);
        assert_eq!(read_data(&text), Err(LoadError::NoPlayers));
        let value: Value = toml::from_str(&text).unwrap();
        assert_eq!(levels(&value), 1 + 2 * 31 + tables * parts);
        assert!(levels(&value) <= 3 * MAX_NESTING + 1);
    }
    let text = combined(31, 3, 11);
    assert_eq!(nesting_of(&text), MAX_NESTING + 1);
    assert_eq!(read_data(&text), Err(LoadError::TooDeep));
}

struct Random(u64);

impl Random {
    fn next(&mut self, below: u64) -> u64 {
        self.0 ^= self.0 << 13;
        self.0 ^= self.0 >> 7;
        self.0 ^= self.0 << 17;
        self.0 % below
    }

    fn name(&mut self) -> String {
        let names = ["a", "b", "c", "\"x.y\"", "'[z]'", "\"{\"", "'#'", "\"]\"", "d-1", "\"q \\\" r\"", "\"\""];
        names[self.next(names.len() as u64) as usize].to_string()
    }

    fn key(&mut self) -> String {
        let parts = 1 + self.next(3);
        let mut key = self.name();
        for _ in 1..parts {
            let dot = [".", " . ", "."][self.next(3) as usize];
            key.push_str(dot);
            key.push_str(&self.name());
        }
        key
    }

    fn gap(&mut self, lines: bool) -> &'static str {
        if lines {
            [" ", "\n", " # ] } . [\n", "\n  ", "", "\r\n\t", " # = , \" '\r\n"][self.next(7) as usize]
        } else {
            [" ", "", "  ", "\t"][self.next(4) as usize]
        }
    }

    fn value(&mut self, depth: u64, lines: bool) -> String {
        let kind = if depth == 0 { self.next(9) } else { self.next(12) };
        match kind {
            0 => "1".to_string(),
            1 => "2.5".to_string(),
            2 => "\"[[ { . } ]] # \\\" ]\"".to_string(),
            3 => ["'[{.'", "\"] } ]\"", "'} ] # \" ]'"][self.next(3) as usize].to_string(),
            4 => "1979-05-27T07:32:00.5Z".to_string(),
            5 => "\"\"".to_string(),
            6 => "\"a [ \\\\\"".to_string(),
            7 if lines => "\"\"\"\n[[[ ] \" ' # \\\"\n}\"\"\"".to_string(),
            8 if lines => "'''\n]]] ' \" { . #\n'''".to_string(),
            7 | 8 => "''".to_string(),
            9 | 10 => {
                let mut text = String::from("[");
                for i in 0..self.next(4) {
                    if i > 0 {
                        text.push(',');
                    }
                    text.push_str(self.gap(true));
                    text.push_str(&self.value(depth - 1, true));
                    text.push_str(self.gap(true));
                }
                text.push(']');
                text
            }
            _ => {
                let mut text = String::from("{");
                for i in 0..self.next(3) {
                    if i > 0 {
                        text.push(',');
                    }
                    text.push_str(&format!(" k{i}.{} = ", self.key()));
                    let spread = self.next(2) == 0;
                    text.push_str(&self.value(depth - 1, spread));
                    text.push_str(self.gap(false));
                }
                text.push('}');
                text
            }
        }
    }

    fn document(&mut self) -> String {
        let mut text = String::new();
        for table in 0..self.next(5) {
            if table > 0 || self.next(2) == 0 {
                let key = self.key();
                let before = self.gap(false);
                let after = self.gap(false);
                let end = ["\n", "\r\n", " # [[x.y]] = {\n", "\n\n# [ ' \"\n"][self.next(4) as usize];
                if self.next(2) == 0 {
                    text.push_str(&format!("{before}[{after}t{table} .{key}{before}]{after}{end}"));
                } else {
                    text.push_str(&format!("{before}[[t{table}.{key}{after}]]{end}"));
                }
            }
            for entry in 0..self.next(4) {
                let key = self.key();
                let value = self.value(4, true);
                let before = self.gap(false);
                let after = self.gap(false);
                let end = ["\n", "\r\n", " # [[x.y]] = {\n", "\n\n"][self.next(4) as usize];
                text.push_str(&format!("{before}e{entry}.{key}{after}={before}{value}{after}{end}"));
            }
        }
        text
    }
}

#[test]
fn no_value_lies_deeper_than_the_bound_allows() {
    let mut random = Random(0x9E37_79B9_7F4A_7C15);
    let mut parsed = 0;
    let mut deep = 0;
    for _ in 0..60_000 {
        let text = random.document();
        let bound = nesting_of(&text);
        if let Ok(value) = toml::from_str::<Value>(&text) {
            parsed += 1;
            let found = levels(&value);
            assert!(found <= 3 * bound + 1, "{found} levels with a bound of {bound} in:\n{text}");
            assert!(bound <= found, "{found} levels with a bound of {bound} in:\n{text}");
            if found > 6 {
                deep += 1;
            }
        }
    }
    assert!(parsed > 5_000, "only {parsed} documents were parsed");
    assert!(deep > 500, "only {deep} documents were deep");
}

#[test]
fn no_statement_nests_deeper_than_is_found() {
    let mut random = Random(0xD1B5_4A32_D192_ED03);
    let mut parsed = 0;
    let mut deep = 0;
    for _ in 0..60_000 {
        let text = format!("v = {}\n", random.value(7, true));
        let found_by_pass = nesting_of(&text);
        if let Ok(value) = toml::from_str::<Value>(&text) {
            parsed += 1;
            let found = levels(&value["v"]);
            assert_eq!(found, found_by_pass, "in:\n{text}");
            if found > 3 {
                deep += 1;
            }
        }
    }
    assert!(parsed > 5_000, "only {parsed} statements were parsed");
    assert!(deep > 500, "only {deep} statements were deep");
}

#[test]
fn values_over_several_lines_are_read() {
    let text = "
title = \"\"\"
The [open] {cup}
of 'all' \"comers\". # 1
\"\"\"
seeds = [
  [1, 2], # [a, b]
  [3, [4, 5]],
  [\"x]\", 'y]'],
]

[Players]
\"Ann B. Lee\" = { elo = 1600, draw = 1 }
'O\"Neil [jr.]' = { elo = 1400, draw = 2 } # { late }

[Tournament] # [main]
size = 2
structure = \"Single Elimination\"
notes = { rounds = [1], days = { first = 1979-05-27, last = 1979-05-28 } }
";
    assert_eq!(nesting_of(text), 3);
    let bracket = read_data(text).unwrap();
    assert_eq!(bracket.len(), 2);
    assert_eq!(bracket[0].as_ref().unwrap().name, "Ann B. Lee");
    assert_eq!(bracket[1].as_ref().unwrap().name, "O\"Neil [jr.]");
}
