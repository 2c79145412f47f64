//! The commands that have a configuration file.
use vstd::prelude::*;
use crate::order::{
    insert_pos, insert_pos_from, insert_sorted, stable_sort, str_lt, string_less,
};
use crate::text::{chars_of, concat2, push_char};

verus! {

/// The command that a configuration file name stands for: the name without
/// its `.toml` extension, when it has one after a non-empty stem.
pub open spec fn toml_stem(name: Seq<char>) -> Option<Seq<char>> {
    if name.len() > 5 && name.skip(name.len() - 5) == ".toml"@ {
        Some(name.take(name.len() - 5))
    } else {
        None
    }
}

/// The commands that the file names `names` stand for, in their order.
pub open spec fn toml_stems(names: Seq<Seq<char>>) -> Seq<Seq<char>>
    decreases names.len(),
{
    if names.len() == 0 {
        Seq::empty()
    } else {
        let rest = toml_stems(names.drop_last());
        match toml_stem(names.last()) {
            Some(stem) => rest.push(stem),
            None => rest,
        }
    }
}

/// The order of command names: the order of `String`s.
pub open spec fn name_order() -> spec_fn(Seq<char>, Seq<char>) -> bool {
    |a: Seq<char>, b: Seq<char>| str_lt(a, b)
}

/// The command that the file name `name` stands for, if any.
pub fn toml_stem_of(name: &str) -> (res: Option<String>)
    ensures
        match (res, toml_stem(name@)) {
            (Some(s), Some(t)) => s@ == t,
            (None, None) => true,
            _ => false,
        },
{
    let chars = chars_of(name);
    let n = chars.len();
    if n <= 5 {
        return None;
    }
    let suffix_ok = chars[n - 5] == '.' && chars[n - 4] == 't' && chars[n - 3] == 'o' && chars[n
        - 2] == 'm' && chars[n - 1] == 'l';
    proof {
        reveal_strlit(".toml");
        if suffix_ok {
            assert(name@.skip(n - 5) =~= ".toml"@);
        } else {
            if name@.skip(n - 5) == ".toml"@ {
                assert(name@.skip(n - 5)[0] == '.');
                assert(name@.skip(n - 5)[1] == 't');
                assert(name@.skip(n - 5)[2] == 'o');
                assert(name@.skip(n - 5)[3] == 'm');
                assert(name@.skip(n - 5)[4] == 'l');
            }
        }
    }
    if !suffix_ok {
        return None;
    }
    let mut stem = String::new();
    let mut i: usize = 0;
    while i < n - 5
        invariant
            chars@ == name@,
            n == chars.len(),
            n > 5,
            i <= n - 5,
            stem@ == name@.take(i as int),
        decreases n - 5 - i,
    {
        push_char(&mut stem, chars[i]);
        i = i + 1;
        proof {
            assert(stem@ =~= name@.take(i as int));
        }
    }
    Some(stem)
}

/// The name of the configuration file of `command_name`.
pub fn config_file_name(command_name: &str) -> (res: String)
    ensures
        res@ == command_name@ + ".toml"@,
{
    concat2(command_name, ".toml")
}

/// The configuration file of a command is listed as that command.
pub proof fn lemma_config_file_names_list_their_command(command_name: Seq<char>)
    requires
        command_name.len() > 0,
    ensures
        toml_stem(command_name + ".toml"@) == Some(command_name),
{
    reveal_strlit(".toml");
    let name = command_name + ".toml"@;
    assert(name.skip(name.len() - 5) =~= ".toml"@);
    assert(name.take(name.len() - 5) =~= command_name);
}

/// A file name stands for a command only when it is that command's name,
/// not empty, followed by `.toml`.
pub proof fn lemma_toml_stem_is_command_file(name: Seq<char>)
    ensures
        toml_stem(name) matches Some(command) ==> command.len() > 0 && name == command
            + seq!['.', 't', 'o', 'm', 'l'],
{
    reveal_strlit(".toml");
    if toml_stem(name) is Some {
        let command = name.take(name.len() - 5);
        assert(name.skip(name.len() - 5) =~= seq!['.', 't', 'o', 'm', 'l']);
        assert(name =~= command + name.skip(name.len() - 5));
    }
}

/// The commands that have a configuration file, given the names of the
/// files in the configuration directory: each `<command>.toml` names
/// `<command>`; other names are skipped; the commands are sorted.
pub fn configured_command_names(file_names: &Vec<String>) -> (res: Vec<String>)
    ensures
        res.deep_view() == stable_sort(toml_stems(file_names.deep_view()), name_order()),
{
    let ghost names = file_names.deep_view();
    let ghost order = name_order();
    let mut commands: Vec<String> = Vec::new();
    let mut i: usize = 0;
    while i < file_names.len()
        invariant
            names == file_names.deep_view(),
            order == name_order(),
            i <= file_names.len(),
            commands.deep_view() == stable_sort(toml_stems(names.take(i as int)), order),
        decreases file_names.len() - i,
    {
        let ghost prev = toml_stems(names.take(i as int));
        proof {
            assert(names.take(i + 1).drop_last() =~= names.take(i as int));
            assert(names.take(i + 1).last() == names[i as int]);
        }
        match toml_stem_of(file_names[i].as_str()) {
            None => {
                proof {
                    assert(toml_stems(names.take(i + 1)) == prev);
                }
            },
            Some(stem) => {
                let ghost sorted = commands.deep_view();
                let mut j: usize = 0;
                while j < commands.len() && !string_less(stem.as_str(), commands[j].as_str())
                    invariant
                        sorted == commands.deep_view(),
                        order == name_order(),
                        j <= commands.len(),
                        insert_pos(sorted, stem@, order) == insert_pos_from(
                            sorted,
                            stem@,
                            order,
                            j as int,
                        ),
                    decreases commands.len() - j,
                {
                    j = j + 1;
                }
                proof {
                    if j < commands.len() {
                        assert(order(stem@, sorted[j as int]));
                    }
                    assert(insert_pos(sorted, stem@, order) == j);
                }
                let ghost stem_view = stem@;
                commands.insert(j, stem);
                proof {
                    assert(commands.deep_view() =~= insert_sorted(sorted, stem_view, order));
                    let next = toml_stems(names.take(i + 1));
                    assert(next == prev.push(stem_view));
                    assert(next.drop_last() =~= prev);
                    assert(stable_sort(next, order) == insert_sorted(
                        stable_sort(prev, order),
                        stem_view,
                        order,
                    ));
                }
            },
        }
        i = i + 1;
    }
    proof {
        assert(names.take(i as int) =~= names);
    }
    commands
}

} // verus!
