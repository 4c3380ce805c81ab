//! What the lexers of a parser do.

use vstd::prelude::*;

use crate::build_lex_table::{
    are_built, arguments_wf, entry_number, group_configs, group_of, keyword_configs, main_id, main_table, plain_table,
    state_groups, state_tokens, tables_fit, LexTables,
};
use crate::character_set::holds;
use crate::configs::{
    accepted, config_bound, config_wf, configs_wf, discover, end_config, end_successors, entry_config, explore,
    explored, is_kept, kept, kept_of, lemma_config_count, lemma_discover, lemma_explore, lemma_kept_of, lemma_look_at,
    lemma_number_of, lemma_successors_wf, lemma_table_for_wf, lemma_with_entry, start_states, state_for, successors,
    table_for, Config,
};
use crate::grammars::LexicalGrammar;
use crate::group_laws::{law_shared_tokens_have_owners, some_member};
use crate::keywords::KeywordRules;
use crate::lexer_laws::{
    config_on, inputs, is_complete, law_end_of_input, law_lexer_follows_automaton, law_lexer_is_deterministic,
    law_lexer_steps, lemma_kept_reads, run_config, separates,
};
use crate::lexing_laws::{are_tokens, law_configuration_after_text, law_entry_point_lexes, lemma_does_right, lexes};
use crate::minimize::{lemma_minimal_groups, lemma_minimized_wf, minimal_groups, minimal_ids, minimized_table};
use crate::minimize_laws::{
    can_be_told_apart, law_first_state_stays, law_joined_states_agree, law_joining_is_thorough,
    law_joining_keeps_behaviour, tells_apart,
};
use crate::rules::{Symbol, SymbolType, Tokens};
use crate::runs::lemma_transitions_of;
use crate::sort_laws::{law_sorting_keeps_behaviour, law_sorting_renumbers, lemma_sorted_wf};
use crate::sort_states::{lemma_state_order, sorted_ids, state_order};
use crate::table_runs::{
    action_on, all_deterministic, is_deterministic, lemma_looks_like, lemma_renumbered, looks_like, run_table, Input,
};
use crate::tables::{table_wf, ParseTable};
use crate::token_conflicts::{CoincidentTokenIndex, TokenConflictMap};
use crate::token_groups::{
    grouped, includes, is_grouped, is_harmless, is_in_group, law_sharing_is_harmless, lemma_grouped, TokenGroup,
};
use crate::transitions::transitions_of;

verus! {

/// The configurations of a lexer with entry points for groups of parse states.
pub proof fn lemma_group_configs(g: &LexicalGrammar, groups: Seq<TokenGroup>)
    requires
        g.wf(),
    ensures
        configs_wf(g, group_configs(g, groups)),
        explored(g, group_configs(g, groups), group_configs(g, groups).len() as int),
        forall|k: int|
            0 <= k < groups.len() ==> group_configs(g, groups).contains(entry_config(g, (#[trigger] groups[k]).0)),
    decreases groups.len(),
{
    if groups.len() > 0 {
        let front = groups.drop_last();
        lemma_group_configs(g, front);
        let some = group_configs(g, front);
        let all = group_configs(g, groups);
        lemma_with_entry(g, some, groups.last().0);
        assert forall|k: int| 0 <= k < groups.len() implies all.contains(entry_config(g, (#[trigger] groups[k]).0)) by {
            if k < front.len() {
                assert(front[k] == groups[k]);
                let entry = entry_config(g, front[k].0);
                assert(some.contains(entry));
                let i = choose|i: int| 0 <= i < some.len() && some[i] == entry;
                assert(all[i] == entry);
            }
        }
    }
}

/// The tokens that the main lexer looks for in parse state `i`.
pub open spec fn shared_tokens(rules: KeywordRules<'_>, index: &CoincidentTokenIndex, table: ParseTable, i: int) -> Tokens {
    let groups = state_groups(rules, index, table);
    groups[group_of(groups, i)].0
}

/// In every parse state, the main lexer looks for all tokens that it should look for
/// there, and none of the others that it looks for clashes with one of them.
pub proof fn law_parse_state_tokens(rules: KeywordRules<'_>, index: &CoincidentTokenIndex, table: ParseTable, i: int)
    requires
        arguments_wf(rules, index, table),
        0 <= i < table.states@.len(),
    ensures
        includes(shared_tokens(rules, index, table, i), rules.lexed_tokens(table, table.states@[i])),
        is_harmless(
            rules.token_conflict_map,
            index,
            shared_tokens(rules, index, table, i),
            rules.lexed_tokens(table, table.states@[i]),
        ),
{
    let sets = state_tokens(rules, table);
    let groups = state_groups(rules, index, table);
    lemma_grouped(rules.token_conflict_map, index, sets);
    assert(is_grouped(groups, i));
    let k = group_of(groups, i);
    assert(is_in_group(groups, i, k));
    law_sharing_is_harmless(rules.token_conflict_map, index, sets, i, k);
    assert(sets[i] == rules.lexed_tokens(table, table.states@[i]));
}

/// What the main lexer looks for are tokens of the grammar.
proof fn lemma_shared_tokens(rules: KeywordRules<'_>, index: &CoincidentTokenIndex, table: ParseTable, i: int)
    requires
        arguments_wf(rules, index, table),
        0 <= i < table.states@.len(),
    ensures
        are_tokens(rules.lexical_grammar, shared_tokens(rules, index, table, i)),
{
    let m = rules.token_conflict_map;
    let n = rules.lexical_grammar.variables@.len();
    let sets = state_tokens(rules, table);
    let groups = state_groups(rules, index, table);
    let tokens = shared_tokens(rules, index, table, i);
    lemma_grouped(m, index, sets);
    assert(is_grouped(groups, i));
    let k = group_of(groups, i);
    assert(is_in_group(groups, i, k));
    law_shared_tokens_have_owners(m, index, sets, k);
    assert forall|t: int| #[trigger] tokens.terminals.contains(t) implies 0 <= t < n by {
        let p = |s: Tokens| s.terminals.contains(t);
        assert(some_member(m, index, sets, k, p));
        let j = choose|j: int| 0 <= j < sets.len() && #[trigger] is_in_group(groups, j, k) && p(sets[j]);
        assert(table.state_wf(table.states@[j], n));
        let q = |s: Symbol| rules.looks_for(table, table.states@[j], s);
        let symbol = choose|s: Symbol| #[trigger] q(s) && s.kind == SymbolType::Terminal && s.index == t;
        let token = choose|token: Symbol|
            #[trigger] rules.expects(table.states@[j], token) && rules.lexed_as(table, table.states@[j], token) == Some(
                symbol,
            );
        if table.states@[j].reserved_words@.has(token) && token.kind == SymbolType::Terminal {
            assert(table.states@[j].reserved_words@.terminals.contains(token.index as int));
        }
    }
}

/// The plain table, and where it is entered for parse state `i`.
pub proof fn lemma_plain_table(rules: KeywordRules<'_>, index: &CoincidentTokenIndex, table: ParseTable, i: int)
    requires
        arguments_wf(rules, index, table),
        tables_fit(rules, index, table),
        0 <= i < table.states@.len(),
    ensures
        is_complete(
            rules.lexical_grammar,
            group_configs(rules.lexical_grammar, state_groups(rules, index, table)),
        ),
        table_wf(plain_table(rules, index, table)),
        entry_number(rules.lexical_grammar, state_groups(rules, index, table), i) < plain_table(rules, index, table).len(),
        group_configs(rules.lexical_grammar, state_groups(rules, index, table))[entry_number(
            rules.lexical_grammar,
            state_groups(rules, index, table),
            i,
        ) as int] == entry_config(rules.lexical_grammar, shared_tokens(rules, index, table, i)),
{
    let g = rules.lexical_grammar;
    let groups = state_groups(rules, index, table);
    let configs = group_configs(g, groups);
    lemma_group_configs(g, groups);
    lemma_table_for_wf(g, configs);
    lemma_grouped(rules.token_conflict_map, index, state_tokens(rules, table));
    assert(is_grouped(groups, i));
    let k = group_of(groups, i);
    assert(is_in_group(groups, i, k));
    let entry = entry_config(g, groups[k].0);
    assert(configs.contains(entry));
    lemma_number_of(g, configs, configs, entry);
}

/// The actions of the main lexer lead to states of it, and every parse state has a state
/// of it to start in. The first parse state starts in the first one.
pub proof fn law_main_lexer_is_whole(rules: KeywordRules<'_>, index: &CoincidentTokenIndex, table: ParseTable)
    requires
        arguments_wf(rules, index, table),
        tables_fit(rules, index, table),
    ensures
        table_wf(main_table(rules, index, table)),
        forall|i: int|
            0 <= i < table.states@.len() ==> (#[trigger] main_id(rules, index, table, i)) < main_table(
                rules,
                index,
                table,
            ).len(),
        main_id(rules, index, table, 0) == 0,
{
    let plain = plain_table(rules, index, table);
    let small = minimized_table(plain);
    lemma_plain_table(rules, index, table, 0);
    lemma_minimal_groups(plain);
    lemma_minimized_wf(plain);
    lemma_sorted_wf(small);
    law_sorting_renumbers(small);
    law_first_state_stays(plain);
    assert forall|i: int| 0 <= i < table.states@.len() implies (#[trigger] main_id(rules, index, table, i)) < main_table(
        rules,
        index,
        table,
    ).len() by {
        lemma_plain_table(rules, index, table, i);
        let entry = entry_number(rules.lexical_grammar, state_groups(rules, index, table), i) as int;
        assert(minimal_ids(plain)[entry] < small.len());
        assert(sorted_ids(small)[minimal_ids(plain)[entry] as int] < small.len());
    }
    lemma_first_entry(rules, index, table);
}

/// The first parse state is in the first group.
proof fn lemma_first_in_first_group(m: &TokenConflictMap, index: &CoincidentTokenIndex, sets: Seq<Tokens>)
    requires
        0 < sets.len() <= u32::MAX + 1,
    ensures
        is_in_group(grouped(m, index, sets), 0, 0),
    decreases sets.len(),
{
    let front = sets.drop_last();
    let before = grouped(m, index, front);
    let after = grouped(m, index, sets);
    if front.len() > 0 {
        lemma_first_in_first_group(m, index, front);
        let x = choose|x: int| 0 <= x < before[0].1.len() && before[0].1[x] == 0u32;
        assert(after[0].1[x] == 0u32);
    } else {
        assert(before.len() == 0);
        assert(after[0].1[0] == 0u32);
    }
}

/// The first group is entered in the first state.
proof fn lemma_first_group_entry(g: &LexicalGrammar, groups: Seq<TokenGroup>)
    requires
        g.wf(),
        groups.len() > 0,
    ensures
        group_configs(g, groups).len() > 0,
        group_configs(g, groups)[0] == entry_config(g, groups[0].0),
    decreases groups.len(),
{
    let front = groups.drop_last();
    let some = group_configs(g, front);
    lemma_group_configs(g, front);
    lemma_with_entry(g, some, groups.last().0);
    if front.len() > 0 {
        lemma_first_group_entry(g, front);
    } else {
        let entry = entry_config(g, groups.last().0);
        let one = seq![entry];
        let first = discover(some, one);
        assert(discover(some, one.drop_last()) == some);
        assert(first =~= seq![entry]);
        g.nfa.lemma_closure(start_states(g, groups.last().0));
        lemma_explore(g, first, some.len());
    }
}

proof fn lemma_first_entry(rules: KeywordRules<'_>, index: &CoincidentTokenIndex, table: ParseTable)
    requires
        arguments_wf(rules, index, table),
        tables_fit(rules, index, table),
    ensures
        entry_number(rules.lexical_grammar, state_groups(rules, index, table), 0) == 0,
{
    let g = rules.lexical_grammar;
    let sets = state_tokens(rules, table);
    let groups = state_groups(rules, index, table);
    let configs = group_configs(g, groups);
    lemma_grouped(rules.token_conflict_map, index, sets);
    lemma_first_in_first_group(rules.token_conflict_map, index, sets);
    assert(is_in_group(groups, 0, group_of(groups, 0)));
    assert(group_of(groups, 0) == 0);
    lemma_first_group_entry(g, groups);
    lemma_group_configs(g, groups);
    let entry = entry_config(g, groups[0].0);
    assert(configs.contains(entry));
    lemma_number_of(g, configs, configs, entry);
}

/// Where the main lexer gets to from the state of a parse state.
proof fn lemma_main_run(rules: KeywordRules<'_>, index: &CoincidentTokenIndex, table: ParseTable, i: int, text: Seq<Input>)
    requires
        arguments_wf(rules, index, table),
        tables_fit(rules, index, table),
        0 <= i < table.states@.len(),
    ensures
        ({
            let g = rules.lexical_grammar;
            let lexer = main_table(rules, index, table);
            let start = main_id(rules, index, table, i) as int;
            let entry = entry_config(g, shared_tokens(rules, index, table, i));
            let configs = group_configs(g, state_groups(rules, index, table));
            match run_config(g, entry, text) {
                None => run_table(lexer, start, text) is None,
                Some(c) => run_table(lexer, start, text) matches Some(x) && 0 <= x < lexer.len() && configs.contains(c)
                    && looks_like(state_for(g, configs, c), lexer[x]),
            }
        }),
{
    let g = rules.lexical_grammar;
    let groups = state_groups(rules, index, table);
    let configs = group_configs(g, groups);
    let plain = plain_table(rules, index, table);
    let small = minimized_table(plain);
    let x = entry_number(g, groups, i) as int;
    lemma_plain_table(rules, index, table, i);
    lemma_minimal_groups(plain);
    lemma_minimized_wf(plain);
    law_end_of_input(g, configs);
    law_lexer_follows_automaton(g, configs, x, text);
    law_joining_keeps_behaviour(plain, x, text);
    assert(minimal_ids(plain)[x] < small.len());
    law_sorting_keeps_behaviour(small, minimal_ids(plain)[x] as int, text);
    law_sorting_renumbers(small);
    if let Some(c) = run_config(g, configs[x], text) {
        let y = configs.index_of(c);
        lemma_number_of(g, configs, configs, c);
        assert(minimal_ids(plain)[y] < small.len());
        assert(sorted_ids(small)[minimal_ids(plain)[y] as int] < small.len());
    }
}

/// Every action of the main lexer at the end of the input is part of the token.
proof fn lemma_main_end_actions(rules: KeywordRules<'_>, index: &CoincidentTokenIndex, table: ParseTable, x: int)
    requires
        arguments_wf(rules, index, table),
        tables_fit(rules, index, table),
        0 <= x < main_table(rules, index, table).len(),
    ensures
        main_table(rules, index, table)[x].eof_action matches Some(action) ==> action.in_main_token,
{
    let plain = plain_table(rules, index, table);
    let small = minimized_table(plain);
    lemma_plain_table(rules, index, table, 0);
    lemma_minimal_groups(plain);
    lemma_state_order(small);
    let y = state_order(small)[x] as int;
    assert(state_order(small)[x] < small.len());
    let z = minimal_groups(plain).members[y][0];
    assert(minimal_groups(plain).members[y].len() > 0);
    assert(minimal_groups(plain).members[y].contains(z));
}

/// The main lexer of a parser does what it should, whatever the parse state and the text:
/// it reads the text as far as going on beats stopping, accepts the token that comes
/// first, tells separators from tokens, and knows where the end of the input is valid.
pub proof fn law_built_lexer(
    rules: KeywordRules<'_>,
    index: &CoincidentTokenIndex,
    before: ParseTable,
    after: ParseTable,
    tables: LexTables,
    i: int,
    text: Seq<int>,
)
    requires
        arguments_wf(rules, index, before),
        tables_fit(rules, index, before),
        are_built(rules, index, before, after, tables),
        0 <= i < before.states@.len(),
    ensures
        lexes(
            rules.lexical_grammar,
            shared_tokens(rules, index, before, i),
            tables.main_lex_table@,
            after.states@[i].lex_state_id as int,
            text,
        ),
{
    let g = rules.lexical_grammar;
    let tokens = shared_tokens(rules, index, before, i);
    let entry = entry_config(g, tokens);
    let configs = group_configs(g, state_groups(rules, index, before));
    let lexer = main_table(rules, index, before);
    let start = main_id(rules, index, before, i) as int;
    assert(after.states@[i].lex_state_id == main_id(rules, index, before, i));
    lemma_plain_table(rules, index, before, i);
    lemma_shared_tokens(rules, index, before, i);
    lemma_main_run(rules, index, before, i, inputs(text));
    law_configuration_after_text(g, tokens, text);
    if let Some(config) = run_config(g, entry, inputs(text)) {
        let x = run_table(lexer, start, inputs(text))->0;
        lemma_main_end_actions(rules, index, before, x);
        if let Some(action) = lexer[x].eof_action {
            let longer = inputs(text).push(None);
            assert(longer.drop_last() =~= inputs(text));
            assert(longer.last() is None);
            assert(config.1);
            lemma_main_run(rules, index, before, i, longer);
            law_end_of_input(g, configs);
            lemma_number_of(g, configs, configs, config);
            let y = configs.index_of(config);
            let plain = table_for(g, configs);
            assert(plain[y].eof_action is Some);
            lemma_number_of(g, configs, configs, end_config());
            assert(plain[configs.index_of(end_config())] == state_for(g, configs, end_config()));
        }
        lemma_does_right(g, tokens, text, configs, lexer, x);
    }
}

/// The keyword lexer does with every text what is right when it looks for the keywords.
pub proof fn law_built_keyword_lexer(
    rules: KeywordRules<'_>,
    index: &CoincidentTokenIndex,
    before: ParseTable,
    after: ParseTable,
    tables: LexTables,
    text: Seq<int>,
)
    requires
        arguments_wf(rules, index, before),
        tables_fit(rules, index, before),
        are_built(rules, index, before, after, tables),
    ensures
        rules.syntax_grammar.word_token is Some ==> lexes(
            rules.lexical_grammar,
            rules.keywords@,
            tables.keyword_lex_table@,
            0,
            text,
        ),
        rules.syntax_grammar.word_token is None ==> tables.keyword_lex_table@.len() == 0,
{
    if rules.syntax_grammar.word_token is Some {
        let g = rules.lexical_grammar;
        let configs = keyword_configs(rules);
        let group: TokenGroup = (rules.keywords@, Seq::empty());
        let groups = seq![group];
        assert(groups.drop_last() =~= Seq::empty());
        assert(group_configs(g, groups.drop_last()) == Seq::<Config>::empty());
        assert(configs == group_configs(g, groups));
        lemma_group_configs(g, groups);
        lemma_first_group_entry(g, groups);
        let entry = entry_config(g, rules.keywords@);
        assert(configs.contains(entry));
        lemma_number_of(g, configs, configs, entry);
        assert forall|t: int| #[trigger] rules.keywords@.terminals.contains(t) implies 0 <= t < g.variables@.len() by {
            rules.keywords.lemma_terminals_fit(t);
        }
        law_entry_point_lexes(g, configs, rules.keywords@, text);
    }
}

/// Parse states that are in the same group start in the same state of the main lexer.
pub proof fn law_group_shares_its_entry(
    rules: KeywordRules<'_>,
    index: &CoincidentTokenIndex,
    before: ParseTable,
    after: ParseTable,
    tables: LexTables,
    i: int,
    j: int,
    k: int,
)
    requires
        arguments_wf(rules, index, before),
        are_built(rules, index, before, after, tables),
        0 <= i < before.states@.len(),
        0 <= j < before.states@.len(),
        is_in_group(state_groups(rules, index, before), i, k),
        is_in_group(state_groups(rules, index, before), j, k),
    ensures
        after.states@[i].lex_state_id == after.states@[j].lex_state_id,
{
    let sets = state_tokens(rules, before);
    let groups = state_groups(rules, index, before);
    lemma_grouped(rules.token_conflict_map, index, sets);
    assert(is_in_group(groups, i, group_of(groups, i)));
    assert(is_in_group(groups, j, group_of(groups, j)));
    assert(after.states@[i].lex_state_id == main_id(rules, index, before, i));
    assert(after.states@[j].lex_state_id == main_id(rules, index, before, j));
}

/// Nothing of the parse table changes but the lexer states, each of which is a state of
/// the main lexer; the first parse state starts in the first one.
pub proof fn law_built_parse_table(
    rules: KeywordRules<'_>,
    index: &CoincidentTokenIndex,
    before: ParseTable,
    after: ParseTable,
    tables: LexTables,
    i: int,
)
    requires
        arguments_wf(rules, index, before),
        tables_fit(rules, index, before),
        are_built(rules, index, before, after, tables),
        0 <= i < before.states@.len(),
    ensures
        after.action_lists@ == before.action_lists@,
        after.states@.len() == before.states@.len(),
        after.states@[i].terminal_entries@ == before.states@[i].terminal_entries@,
        after.states@[i].reserved_words@ == before.states@[i].reserved_words@,
        after.states@[i].lex_state_id < tables.main_lex_table@.len(),
        after.states@[0].lex_state_id == 0,
{
    law_main_lexer_is_whole(rules, index, before);
    assert(after.states@[i].lex_state_id == main_id(rules, index, before, i));
    assert(after.states@[0].lex_state_id == main_id(rules, index, before, 0));
    assert(before.states@[i].terminal_entries == after.states@[i].terminal_entries);
}

/// The main lexer does what the automaton does: started for a parse state, it can read
/// just the texts that the automaton can, looking for the tokens of the parse state's
/// group, and it accepts after each what is to be accepted there.
pub proof fn law_main_lexer(
    rules: KeywordRules<'_>,
    index: &CoincidentTokenIndex,
    table: ParseTable,
    i: int,
    text: Seq<Input>,
)
    requires
        arguments_wf(rules, index, table),
        tables_fit(rules, index, table),
        0 <= i < table.states@.len(),
    ensures
        ({
            let lexer = main_table(rules, index, table);
            let start = main_id(rules, index, table, i) as int;
            let entry = entry_config(rules.lexical_grammar, shared_tokens(rules, index, table, i));
            match run_config(rules.lexical_grammar, entry, text) {
                None => run_table(lexer, start, text) is None,
                Some(c) => run_table(lexer, start, text) matches Some(x) && 0 <= x < lexer.len() && lexer[x].accept_action
                    == accepted(rules.lexical_grammar, c) && (lexer[x].eof_action is Some) == c.1,
            }
        }),
{
    let g = rules.lexical_grammar;
    let groups = state_groups(rules, index, table);
    let configs = group_configs(g, groups);
    let plain = plain_table(rules, index, table);
    let small = minimized_table(plain);
    let lexer = main_table(rules, index, table);
    let x = entry_number(g, groups, i) as int;
    lemma_plain_table(rules, index, table, i);
    lemma_minimal_groups(plain);
    lemma_minimized_wf(plain);
    law_end_of_input(g, configs);
    law_lexer_follows_automaton(g, configs, x, text);
    law_joining_keeps_behaviour(plain, x, text);
    assert(minimal_ids(plain)[x] < small.len());
    law_sorting_keeps_behaviour(small, minimal_ids(plain)[x] as int, text);
    law_sorting_renumbers(small);
    if let Some(c) = run_config(g, configs[x], text) {
        let y = configs.index_of(c);
        lemma_number_of(g, configs, configs, c);
        assert(plain[y].eof_action is Some <==> configs[y].1);
        assert(minimal_ids(plain)[y] < small.len());
        assert(sorted_ids(small)[minimal_ids(plain)[y] as int] < small.len());
    }
}

/// The main lexer tells separators from tokens: wherever it reads on with a character, it
/// takes the character for a part of the token unless the automaton reads it as a
/// separator.
pub proof fn law_main_lexer_marks_tokens(
    rules: KeywordRules<'_>,
    index: &CoincidentTokenIndex,
    table: ParseTable,
    i: int,
    text: Seq<Input>,
    c: int,
)
    requires
        arguments_wf(rules, index, table),
        tables_fit(rules, index, table),
        0 <= i < table.states@.len(),
        run_config(
            rules.lexical_grammar,
            entry_config(rules.lexical_grammar, shared_tokens(rules, index, table, i)),
            text.push(Some(c)),
        ) is Some,
    ensures
        ({
            let lexer = main_table(rules, index, table);
            let entry = entry_config(rules.lexical_grammar, shared_tokens(rules, index, table, i));
            &&& run_config(rules.lexical_grammar, entry, text) matches Some(config)
            &&& run_table(lexer, main_id(rules, index, table, i) as int, text) matches Some(x)
            &&& 0 <= x < lexer.len()
            &&& action_on(lexer[x], Some(c)) matches Some(action)
            &&& action.in_main_token == !separates(&rules.lexical_grammar.nfa, config.0, c)
        }),
{
    let g = rules.lexical_grammar;
    let groups = state_groups(rules, index, table);
    let configs = group_configs(g, groups);
    let plain = plain_table(rules, index, table);
    let small = minimized_table(plain);
    let lexer = main_table(rules, index, table);
    let x = entry_number(g, groups, i) as int;
    let longer = text.push(Some(c));
    assert(longer.drop_last() =~= text);
    assert(longer.last() == Some(c));
    lemma_plain_table(rules, index, table, i);
    lemma_minimal_groups(plain);
    lemma_minimized_wf(plain);
    law_end_of_input(g, configs);
    law_lexer_follows_automaton(g, configs, x, text);
    law_joining_keeps_behaviour(plain, x, text);
    assert(minimal_ids(plain)[x] < small.len());
    law_sorting_keeps_behaviour(small, minimal_ids(plain)[x] as int, text);
    law_sorting_renumbers(small);
    let config = run_config(g, configs[x], text)->0;
    let y = configs.index_of(config);
    lemma_number_of(g, configs, configs, config);
    law_lexer_steps(g, configs, y, Some(c));
    let z = minimal_ids(plain)[y] as int;
    assert(minimal_ids(plain)[y] < small.len());
    assert(sorted_ids(small)[z] < small.len());
    lemma_looks_like(plain[y], small[z], c);
    lemma_looks_like(small[z], lexer[sorted_ids(small)[z] as int], c);
}

/// In every state of the main lexer, at most one action reads a character.
pub proof fn law_main_lexer_is_deterministic(rules: KeywordRules<'_>, index: &CoincidentTokenIndex, table: ParseTable)
    requires
        arguments_wf(rules, index, table),
        tables_fit(rules, index, table),
    ensures
        all_deterministic(main_table(rules, index, table)),
{
    let g = rules.lexical_grammar;
    let configs = group_configs(g, state_groups(rules, index, table));
    let plain = plain_table(rules, index, table);
    let small = minimized_table(plain);
    let lexer = main_table(rules, index, table);
    lemma_plain_table(rules, index, table, 0);
    law_lexer_is_deterministic(g, configs);
    lemma_minimal_groups(plain);
    lemma_state_order(small);
    assert forall|x: int| 0 <= x < lexer.len() implies is_deterministic(#[trigger] lexer[x]) by {
        let y = state_order(small)[x] as int;
        assert(state_order(small)[x] < small.len());
        let z = minimal_groups(plain).members[y][0];
        assert(minimal_groups(plain).members[y].len() > 0);
        assert(minimal_groups(plain).members[y].contains(z));
        assert(is_deterministic(plain[z as int]));
        lemma_renumbered(plain[z as int], minimal_ids(plain), None);
        lemma_looks_like(plain[z as int], small[y], 0);
        lemma_renumbered(small[y], sorted_ids(small), None);
        lemma_looks_like(small[y], lexer[x], 0);
    }
}

/// The main lexer has no more states than it needs: states that have not been joined can
/// be told from each other by some text.
pub proof fn law_main_lexer_is_minimal(
    rules: KeywordRules<'_>,
    index: &CoincidentTokenIndex,
    table: ParseTable,
    x: int,
    y: int,
)
    requires
        arguments_wf(rules, index, table),
        tables_fit(rules, index, table),
        0 <= x < plain_table(rules, index, table).len(),
        0 <= y < plain_table(rules, index, table).len(),
    ensures
        minimal_ids(plain_table(rules, index, table))[x] != minimal_ids(plain_table(rules, index, table))[y]
            <==> can_be_told_apart(plain_table(rules, index, table), x, y),
{
    let g = rules.lexical_grammar;
    let plain = plain_table(rules, index, table);
    lemma_plain_table(rules, index, table, 0);
    law_lexer_is_deterministic(g, group_configs(g, state_groups(rules, index, table)));
    if minimal_ids(plain)[x] != minimal_ids(plain)[y] {
        law_joining_is_thorough(plain, x, y);
    } else if can_be_told_apart(plain, x, y) {
        let text = choose|text: Seq<Input>| tells_apart(plain, x, y, text);
        law_joined_states_agree(plain, x, y, text);
    }
}

/// The keyword lexer does what the automaton does when it looks for the keywords: from
/// its first state on, it can read just the texts that the automaton can, and it accepts
/// after each what is to be accepted there.
pub proof fn law_keyword_lexer(rules: KeywordRules<'_>, index: &CoincidentTokenIndex, table: ParseTable, text: Seq<Input>)
    requires
        arguments_wf(rules, index, table),
        tables_fit(rules, index, table),
        rules.syntax_grammar.word_token is Some,
    ensures
        ({
            let lexer = table_for(rules.lexical_grammar, keyword_configs(rules));
            match run_config(rules.lexical_grammar, entry_config(rules.lexical_grammar, rules.keywords@), text) {
                None => run_table(lexer, 0, text) is None,
                Some(c) => run_table(lexer, 0, text) matches Some(x) && 0 <= x < lexer.len() && lexer[x].accept_action
                    == accepted(rules.lexical_grammar, c),
            }
        }),
{
    let g = rules.lexical_grammar;
    let group: TokenGroup = (rules.keywords@, Seq::empty());
    let groups = seq![group];
    let configs = keyword_configs(rules);
    assert(groups.drop_last() =~= Seq::empty());
    assert(group_configs(g, groups.drop_last()) == Seq::<Config>::empty());
    assert(configs == group_configs(g, groups));
    lemma_group_configs(g, groups);
    lemma_first_group_entry(g, groups);
    law_lexer_follows_automaton(g, configs, 0, text);
    if let Some(c) = run_config(g, configs[0], text) {
        lemma_number_of(g, configs, configs, c);
    }
}

/// Some text leads the lexer from one of the entry points to the configuration.
pub open spec fn is_reached(g: &LexicalGrammar, groups: Seq<TokenGroup>, config: Config) -> bool {
    exists|k: int, text: Seq<Input>| leads_to(g, groups, k, text, config)
}

/// The text leads the lexer from the entry point of group `k` to the configuration.
pub open spec fn leads_to(g: &LexicalGrammar, groups: Seq<TokenGroup>, k: int, text: Seq<Input>, config: Config) -> bool {
    0 <= k < groups.len() && run_config(g, entry_config(g, groups[k].0), text) == Some(config)
}

spec fn all_reached(g: &LexicalGrammar, groups: Seq<TokenGroup>, configs: Seq<Config>) -> bool {
    forall|i: int| 0 <= i < configs.len() ==> is_reached(g, groups, #[trigger] configs[i])
}

/// Each successor of a configuration is where some input leads.
proof fn lemma_successor_is_read(g: &LexicalGrammar, config: Config, k: int) -> (input: Input)
    requires
        g.wf(),
        config_wf(g, config),
        0 <= k < successors(g, config).len(),
    ensures
        config_on(g, config, input) == Some(successors(g, config)[k]),
{
    let ends = end_successors(config);
    if k < ends.len() {
        None
    } else {
        let j = k - ends.len();
        let ts = transitions_of(&g.nfa, config.0);
        let t = kept(g, config.0)[j];
        lemma_transitions_of(&g.nfa, config.0);
        lemma_kept_of(g, config.0, ts);
        assert(is_kept(g, config.0, ts, kept_of(g, config.0, ts)[j]));
        let c = t.characters[0].start as int;
        assert(t.characters[0].start <= c < t.characters[0].end);
        assert(holds(t.characters, c));
        lemma_kept_reads(g, config, j, c);
        Some(c)
    }
}

proof fn lemma_reached_discover(g: &LexicalGrammar, groups: Seq<TokenGroup>, configs: Seq<Config>, found: Seq<Config>)
    requires
        configs_wf(g, configs),
        forall|k: int| 0 <= k < found.len() ==> config_wf(g, #[trigger] found[k]),
        all_reached(g, groups, configs),
        all_reached(g, groups, found),
    ensures
        all_reached(g, groups, discover(configs, found)),
{
    lemma_discover(g, configs, found);
    let all = discover(configs, found);
    assert forall|i: int| 0 <= i < all.len() implies is_reached(g, groups, #[trigger] all[i]) by {
        assert(all.contains(all[i]));
        if configs.contains(all[i]) {
            let j = choose|j: int| 0 <= j < configs.len() && configs[j] == all[i];
            assert(is_reached(g, groups, configs[j]));
        } else {
            let j = choose|j: int| 0 <= j < found.len() && found[j] == all[i];
            assert(is_reached(g, groups, found[j]));
        }
    }
}

proof fn lemma_reached_explore(g: &LexicalGrammar, groups: Seq<TokenGroup>, configs: Seq<Config>, next: nat)
    requires
        g.wf(),
        configs_wf(g, configs),
        next <= configs.len(),
        explored(g, configs, next as int),
        all_reached(g, groups, configs),
    ensures
        all_reached(g, groups, explore(g, configs, next)),
    decreases config_bound(g) - next,
{
    lemma_config_count(g, configs);
    if next < configs.len() {
        let config = configs[next as int];
        let found = successors(g, config);
        lemma_look_at(g, configs, next as int);
        lemma_successors_wf(g, config);
        assert(config_wf(g, configs[next as int]));
        assert forall|i: int| 0 <= i < found.len() implies is_reached(g, groups, #[trigger] found[i]) by {
            assert(is_reached(g, groups, configs[next as int]));
            let (k, text) = choose|k: int, text: Seq<Input>| leads_to(g, groups, k, text, config);
            let input = lemma_successor_is_read(g, config, i);
            let longer = text.push(input);
            assert(longer.drop_last() =~= text);
            assert(longer.last() == input);
            assert(leads_to(g, groups, k, longer, found[i]));
        }
        lemma_reached_discover(g, groups, configs, found);
        lemma_reached_explore(g, groups, discover(configs, found), next + 1);
    }
}

proof fn lemma_reached_groups(g: &LexicalGrammar, groups: Seq<TokenGroup>, all: Seq<TokenGroup>)
    requires
        g.wf(),
        groups.len() <= all.len(),
        forall|k: int| 0 <= k < groups.len() ==> #[trigger] groups[k] == all[k],
    ensures
        all_reached(g, all, group_configs(g, groups)),
    decreases groups.len(),
{
    if groups.len() > 0 {
        let front = groups.drop_last();
        lemma_reached_groups(g, front, all);
        lemma_group_configs(g, front);
        let some = group_configs(g, front);
        let tokens = groups.last().0;
        let entry = entry_config(g, tokens);
        let one = seq![entry];
        let first = discover(some, one);
        g.nfa.lemma_closure(start_states(g, tokens));
        assert(config_wf(g, one[0]));
        lemma_discover(g, some, one);
        assert forall|i: int| 0 <= i < one.len() implies is_reached(g, all, #[trigger] one[i]) by {
            let none = Seq::<Input>::empty();
            assert(groups[groups.len() - 1] == all[groups.len() - 1]);
            assert(leads_to(g, all, groups.len() - 1, none, entry));
        }
        lemma_reached_discover(g, all, some, one);
        let m = some.len() as int;
        assert forall|i: int, k: int| 0 <= i < m && 0 <= k < successors(g, first[i]).len() implies first.contains(
            #[trigger] successors(g, first[i])[k],
        ) by {
            assert(first[i] == some[i]);
            assert(some.contains(successors(g, some[i])[k]));
        }
        lemma_reached_explore(g, all, first, some.len());
    }
}

/// No state is there for nothing: some text leads the lexer from one of its entry points
/// to each of its configurations.
pub proof fn law_every_state_is_reached(g: &LexicalGrammar, groups: Seq<TokenGroup>, x: int)
    requires
        g.wf(),
        0 <= x < group_configs(g, groups).len(),
    ensures
        is_reached(g, groups, group_configs(g, groups)[x]),
{
    lemma_reached_groups(g, groups, groups);
}

} // verus!
