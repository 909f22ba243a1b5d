use hardliner::{
    str_attr, Context, Die, Error, FileEntry, Frame, FullContext, HighPc, LineProgram, LineRow, LineSequence,
    LocEntry, Range, StrAttr, Tag, UnitData,
};

fn die(depth: usize, tag: Tag) -> Die {
    Die {
        depth,
        tag,
        ranges: None,
        low_pc: None,
        high_pc: None,
        name: None,
        linkage_name: None,
        abstract_origin: None,
        call_file: None,
        call_line: None,
        call_column: None,
        location: None,
    }
}

fn row(address: u64, line: u64) -> LineRow {
    LineRow { address, file: 1, line: Some(line), column: Some(5) }
}

fn program(start: u64, end: u64, rows: Vec<LineRow>) -> LineProgram {
    LineProgram {
        files: vec![FileEntry { directory: Some("lib".to_string()), path: "a.c".to_string() }],
        sequences: vec![LineSequence { start, end, rows }],
    }
}

fn unit(low: u64, high: HighPc, lang: u16, mut dies: Vec<Die>, prog: LineProgram) -> UnitData {
    let mut root = die(0, Tag::CompileUnit);
    root.low_pc = Some(low);
    root.high_pc = Some(high);
    dies.insert(0, root);
    UnitData { dies, line_program: Some(prog), language: Some(lang), comp_dir: Some("/src".to_string()) }
}

fn function(depth: usize, tag: Tag, name: &str, begin: u64, end: u64) -> Die {
    let mut d = die(depth, tag);
    d.linkage_name = Some(name.to_string());
    d.low_pc = Some(begin);
    d.high_pc = Some(HighPc::Addr(end));
    d
}

fn foo_context(high: HighPc) -> FullContext {
    let dies = vec![function(1, Tag::Subprogram, "foo", 0x1010, 0x1050)];
    let prog = program(0x1000, 0x1100, vec![row(0x1000, 1), row(0x1020, 2), row(0x1040, 3)]);
    let ctx = Context::new(vec![unit(0x1000, high, 0x0004, dies, prog)]).unwrap();
    ctx.parse_functions()
}

fn frames(fc: &FullContext, pc: u64) -> Vec<Frame> {
    let mut it = fc.query(pc);
    let mut out = Vec::new();
    while let Some(f) = it.next() {
        out.push(f);
    }
    out
}

fn display_name(f: &Frame) -> String {
    let func = f.function.as_ref().unwrap();
    func.demangled_name().unwrap_or(func.raw_name())
}

fn nested_context() -> FullContext {
    let mut inner = function(2, Tag::InlinedSubroutine, "inner", 0x2040, 0x2050);
    inner.call_file = Some(1);
    inner.call_line = Some(42);
    inner.call_column = Some(3);
    let dies = vec![function(1, Tag::Subprogram, "outer", 0x2000, 0x2100), inner];
    let prog = program(0x2000, 0x2100, vec![row(0x2000, 10), row(0x2044, 11), row(0x2046, 12), row(0x2080, 13)]);
    let ctx = Context::new(vec![unit(0x2000, HighPc::Addr(0x2100), 0x000c, dies, prog)]).unwrap();
    ctx.parse_functions()
}

#[test]
fn query_single_function_address_form() {
    let fc = foo_context(HighPc::Addr(0x1100));
    let fs = frames(&fc, 0x1020);
    assert_eq!(fs.len(), 1);
    assert_eq!(display_name(&fs[0]), "foo");
    let loc = fs[0].location.as_ref().unwrap();
    assert_eq!(loc.line, Some(2));
    assert_eq!(loc.column, Some(5));
    assert_eq!(loc.file.as_deref(), Some("/src/lib/a.c"));
    assert!(frames(&fc, 0x1100).is_empty());
}

#[test]
fn query_single_function_offset_form() {
    let fc = foo_context(HighPc::Offset(0x100));
    let fs = frames(&fc, 0x1020);
    assert_eq!(fs.len(), 1);
    assert_eq!(display_name(&fs[0]), "foo");
    assert_eq!(fs[0].location.as_ref().unwrap().line, Some(2));
    assert!(frames(&fc, 0x1100).is_empty());
    assert_eq!(fc.light.unit_ranges[0].0, Range { begin: 0x1000, end: 0x1100 });
}

#[test]
fn query_outside_function_inside_unit() {
    let fc = foo_context(HighPc::Addr(0x1100));
    let fs = frames(&fc, 0x1060);
    assert_eq!(fs.len(), 1);
    assert!(fs[0].function.is_none());
    assert_eq!(fs[0].location.as_ref().unwrap().line, Some(3));
}

#[test]
fn query_inlined_chain() {
    let fc = nested_context();
    let fs = frames(&fc, 0x2045);
    assert_eq!(fs.len(), 2);
    assert_eq!(fs[0].function.as_ref().unwrap().raw_name(), "inner");
    assert_eq!(fs[0].location.as_ref().unwrap().line, Some(11));
    assert_eq!(fs[1].function.as_ref().unwrap().raw_name(), "outer");
    let call = fs[1].location.as_ref().unwrap();
    assert_eq!(call.file.as_deref(), Some("/src/lib/a.c"));
    assert_eq!(call.line, Some(42));
    assert_eq!(call.column, Some(3));
    assert!(fs[0].function.as_ref().unwrap().depth > fs[1].function.as_ref().unwrap().depth);
}

#[test]
fn query_outer_only() {
    let fc = nested_context();
    let fs = frames(&fc, 0x2080);
    assert_eq!(fs.len(), 1);
    assert_eq!(fs[0].function.as_ref().unwrap().raw_name(), "outer");
    assert_eq!(fs[0].location.as_ref().unwrap().line, Some(13));
}

#[test]
fn query_is_repeatable() {
    let fc = nested_context();
    let a = frames(&fc, 0x2045);
    let b = frames(&fc, 0x2045);
    assert_eq!(a.len(), b.len());
    for (x, y) in a.iter().zip(b.iter()) {
        assert_eq!(x.function.as_ref().map(|f| f.raw_name()), y.function.as_ref().map(|f| f.raw_name()));
        assert_eq!(x.location.as_ref().map(|l| l.line), y.location.as_ref().map(|l| l.line));
    }
}

#[test]
fn name_through_abstract_origin() {
    let mut concrete = die(1, Tag::InlinedSubroutine);
    concrete.abstract_origin = Some(2);
    let mut origin = die(1, Tag::Subprogram);
    origin.linkage_name = Some("origin_name".to_string());
    let dies = vec![die(0, Tag::CompileUnit), concrete, origin];
    assert_eq!(str_attr(&dies, 1, StrAttr::LinkageName), Some("origin_name".to_string()));
    assert_eq!(str_attr(&dies, 1, StrAttr::Name), None);
}

#[test]
fn abstract_origin_cycle_ends() {
    let mut a = die(1, Tag::Subprogram);
    a.abstract_origin = Some(2);
    let mut b = die(1, Tag::Subprogram);
    b.abstract_origin = Some(1);
    let dies = vec![die(0, Tag::CompileUnit), a, b];
    assert_eq!(str_attr(&dies, 1, StrAttr::LinkageName), None);
}

fn var_context() -> FullContext {
    let mut v = die(2, Tag::Variable);
    v.name = Some("v".to_string());
    v.location = Some(vec![LocEntry { range: Range { begin: 0x3000, end: 0x3010 }, expr: vec![0x91, 0x08] }]);
    let mut block = die(2, Tag::LexicalBlock);
    block.low_pc = Some(0x3020);
    block.high_pc = Some(HighPc::Addr(0x3030));
    let mut hidden = die(3, Tag::Variable);
    hidden.name = Some("hidden".to_string());
    hidden.location = Some(vec![LocEntry { range: Range { begin: 0x2000, end: 0x4000 }, expr: vec![0x50] }]);
    let dies = vec![function(1, Tag::Subprogram, "f", 0x2f00, 0x3100), v, block, hidden];
    let prog = program(0x2f00, 0x3100, vec![row(0x2f00, 1)]);
    let ctx = Context::new(vec![unit(0x2f00, HighPc::Addr(0x3100), 0x001c, dies, prog)]).unwrap();
    ctx.parse_functions()
}

fn var_names(fc: &FullContext, probe: u64) -> Vec<String> {
    let fs = frames(fc, probe);
    let func = fs[0].function.as_ref().unwrap();
    let mut it = func.stack_variables_at(fc, probe);
    let mut out = Vec::new();
    while let Some(v) = it.next() {
        out.push(v.name.unwrap());
    }
    out
}

#[test]
fn stack_variable_in_range() {
    let fc = var_context();
    assert_eq!(var_names(&fc, 0x3008), vec!["v".to_string()]);
    let fs = frames(&fc, 0x3008);
    let mut it = fs[0].function.as_ref().unwrap().stack_variables_at(&fc, 0x3008);
    assert_eq!(it.next().unwrap().expr, vec![0x91, 0x08]);
}

#[test]
fn stack_variable_out_of_range() {
    let fc = var_context();
    assert!(var_names(&fc, 0x3010).is_empty());
    assert!(var_names(&fc, 0x2fff).is_empty());
}

#[test]
fn stack_variable_in_lexical_block() {
    let fc = var_context();
    assert_eq!(var_names(&fc, 0x3024), vec!["hidden".to_string()]);
}

#[test]
fn range_half_open() {
    let r = Range { begin: 0x10, end: 0x20 };
    assert!(r.contains(0x10));
    assert!(r.contains(0x1f));
    assert!(!r.contains(0x20));
    assert!(!r.contains(0x0f));
}

#[test]
fn high_pc_forms() {
    let mut d = die(1, Tag::Subprogram);
    d.low_pc = Some(0x1000);
    d.high_pc = Some(HighPc::Offset(0x100));
    assert_eq!(d.read_ranges(), Some(vec![Range { begin: 0x1000, end: 0x1100 }]));
    d.high_pc = Some(HighPc::Addr(0x1100));
    assert_eq!(d.read_ranges(), Some(vec![Range { begin: 0x1000, end: 0x1100 }]));
    d.high_pc = None;
    assert_eq!(d.read_ranges(), None);
    d.ranges = Some(vec![Range { begin: 1, end: 2 }, Range { begin: 5, end: 9 }]);
    assert_eq!(d.read_ranges(), Some(vec![Range { begin: 1, end: 2 }, Range { begin: 5, end: 9 }]));
}

#[test]
fn high_pc_offset_overflow() {
    let mut d = die(1, Tag::Subprogram);
    d.low_pc = Some(u64::MAX - 1);
    d.high_pc = Some(HighPc::Offset(2));
    assert_eq!(d.read_ranges(), None);
}

fn small_unit(low: u64, high: u64) -> UnitData {
    unit(low, HighPc::Addr(high), 0x000c, vec![], program(low, high.max(low), vec![row(low, 1)]))
}

#[test]
fn unit_ranges_sorted_and_nonempty() {
    let units = vec![small_unit(0x500, 0x600), small_unit(0x100, 0x100), small_unit(0x200, 0x300)];
    let ctx = Context::new(units).unwrap();
    assert_eq!(ctx.unit_ranges.len(), 2);
    assert_eq!(ctx.unit_ranges[0], (Range { begin: 0x200, end: 0x300 }, 2));
    assert_eq!(ctx.unit_ranges[1], (Range { begin: 0x500, end: 0x600 }, 0));
    assert_eq!(ctx.units[2].index, 2);
    assert!(ctx.find_location(0x100).is_none());
    assert!(ctx.find_location(0x200).is_some());
    assert!(ctx.find_location(0x300).is_none());
    assert!(ctx.find_location(0x5ff).is_some());
}

#[test]
fn construction_is_repeatable() {
    let a = Context::new(vec![small_unit(0x500, 0x600), small_unit(0x200, 0x300)]).unwrap();
    let b = Context::new(vec![small_unit(0x500, 0x600), small_unit(0x200, 0x300)]).unwrap();
    assert_eq!(a.unit_ranges, b.unit_ranges);
    assert_eq!(a.units.len(), b.units.len());
}

#[test]
fn overlapping_units_rejected() {
    let r = Context::new(vec![small_unit(0x100, 0x300), small_unit(0x200, 0x400)]);
    assert_eq!(r.err(), Some(Error::OverlappingUnitRanges));
}

#[test]
fn overlapping_sequences_ignored() {
    let mut prog = program(0x100, 0x200, vec![row(0x100, 1)]);
    prog.sequences.push(LineSequence { start: 0x0, end: 0x10, rows: vec![row(0x0, 7)] });
    prog.sequences.push(LineSequence { start: 0x0, end: 0x20, rows: vec![row(0x0, 8)] });
    let mut root = die(0, Tag::CompileUnit);
    root.ranges = Some(vec![Range { begin: 0x0, end: 0x20 }, Range { begin: 0x100, end: 0x200 }]);
    root.low_pc = Some(0x100);
    let u = UnitData { dies: vec![root], line_program: Some(prog), language: Some(0x000c), comp_dir: None };
    let ctx = Context::new(vec![u]).unwrap();
    assert_eq!(ctx.units.len(), 1);
    assert_eq!(ctx.find_location(0x180).unwrap().line, Some(1));
    assert!(ctx.find_location(0x8).is_none());
}

#[test]
fn empty_function_range_not_indexed() {
    let mut d = function(1, Tag::Subprogram, "empty", 0x1010, 0x1010);
    d.ranges = Some(vec![Range { begin: 0x1010, end: 0x1010 }, Range { begin: 0x1020, end: 0x1030 }]);
    let prog = program(0x1000, 0x1100, vec![row(0x1000, 1)]);
    let ctx = Context::new(vec![unit(0x1000, HighPc::Addr(0x1100), 0x000c, vec![d], prog)]).unwrap();
    let fc = ctx.parse_functions();
    assert_eq!(fc.funcs.len(), 1);
    assert_eq!(fc.funcs[0].range, Range { begin: 0x1020, end: 0x1030 });
}

#[test]
fn equal_depth_matches_in_index_order() {
    let dies = vec![
        function(1, Tag::Subprogram, "first", 0x10, 0x40),
        function(1, Tag::Subprogram, "second", 0x20, 0x30),
    ];
    let prog = program(0x10, 0x40, vec![row(0x10, 1)]);
    let ctx = Context::new(vec![unit(0x10, HighPc::Addr(0x40), 0x000c, dies, prog)]).unwrap();
    let fc = ctx.parse_functions();
    let fs = frames(&fc, 0x28);
    assert_eq!(fs.len(), 2);
    assert_eq!(fs[0].function.as_ref().unwrap().raw_name(), "first");
    assert_eq!(fs[1].function.as_ref().unwrap().raw_name(), "second");
    assert!(fs[1].location.is_none());
}

#[test]
fn units_without_required_attributes_skipped() {
    let mut no_lang = small_unit(0x100, 0x200);
    no_lang.language = None;
    let mut no_program = small_unit(0x300, 0x400);
    no_program.line_program = None;
    let mut not_cu = small_unit(0x500, 0x600);
    not_cu.dies[0].tag = Tag::Other;
    let ok = small_unit(0x700, 0x800);
    let ctx = Context::new(vec![no_lang, no_program, not_cu, ok]).unwrap();
    assert_eq!(ctx.units.len(), 1);
    assert_eq!(ctx.units[0].index, 3);
    assert_eq!(ctx.unit_ranges, vec![(Range { begin: 0x700, end: 0x800 }, 0)]);
    assert!(ctx.find_location(0x150).is_none());
}

#[test]
fn row_selection_stops_past_pc() {
    let prog = program(0x100, 0x200, vec![row(0x100, 1), row(0x110, 2), row(0x120, 3)]);
    let ctx = Context::new(vec![unit(0x100, HighPc::Addr(0x200), 0x000c, vec![], prog)]).unwrap();
    assert_eq!(ctx.find_location(0x10f).unwrap().line, Some(1));
    assert_eq!(ctx.find_location(0x110).unwrap().line, Some(2));
    assert_eq!(ctx.find_location(0x1ff).unwrap().line, Some(3));
}

#[test]
fn left_edge_column_and_missing_file() {
    let mut prog = program(0x100, 0x200, vec![]);
    prog.sequences[0].rows.push(LineRow { address: 0x100, file: 7, line: None, column: None });
    let ctx = Context::new(vec![unit(0x100, HighPc::Addr(0x200), 0x000c, vec![], prog)]).unwrap();
    let loc = ctx.find_location(0x180).unwrap();
    assert_eq!(loc.file, None);
    assert_eq!(loc.line, None);
    assert_eq!(loc.column, None);
}

#[test]
fn demangle_rust_name() {
    let mut d = function(1, Tag::Subprogram, "_ZN4core3fmt5write17h0123456789abcdefE", 0x10, 0x20);
    d.depth = 1;
    let prog = program(0x10, 0x20, vec![row(0x10, 1)]);
    let ctx = Context::new(vec![unit(0x10, HighPc::Addr(0x20), 0x001c, vec![d], prog)]).unwrap();
    let fc = ctx.parse_functions();
    let fs = frames(&fc, 0x18);
    let name = fs[0].function.as_ref().unwrap().demangled_name().unwrap();
    assert!(name.starts_with("core::fmt::write"));
}

#[test]
fn demangle_cpp_name() {
    let d = function(1, Tag::Subprogram, "_ZN5space3fooEibc", 0x10, 0x20);
    let prog = program(0x10, 0x20, vec![row(0x10, 1)]);
    let ctx = Context::new(vec![unit(0x10, HighPc::Addr(0x20), 0x0021, vec![d], prog)]).unwrap();
    let fc = ctx.parse_functions();
    let fs = frames(&fc, 0x18);
    let func = fs[0].function.as_ref().unwrap();
    assert_eq!(func.demangled_name(), Some("space::foo(int, bool, char)".to_string()));
    assert_eq!(func.raw_name(), "_ZN5space3fooEibc");
}

#[test]
fn no_demangling_for_c() {
    let d = function(1, Tag::Subprogram, "_ZN5space3fooEibc", 0x10, 0x20);
    let prog = program(0x10, 0x20, vec![row(0x10, 1)]);
    let ctx = Context::new(vec![unit(0x10, HighPc::Addr(0x20), 0x000c, vec![d], prog)]).unwrap();
    let fc = ctx.parse_functions();
    let fs = frames(&fc, 0x18);
    assert_eq!(fs[0].function.as_ref().unwrap().demangled_name(), None);
}

#[test]
fn repeated_unit_range_indexed_once() {
    let mut u = small_unit(0x100, 0x200);
    u.dies[0].ranges = Some(vec![Range { begin: 0x100, end: 0x200 }, Range { begin: 0x100, end: 0x200 }]);
    let ctx = Context::new(vec![u]).unwrap();
    assert_eq!(ctx.unit_ranges, vec![(Range { begin: 0x100, end: 0x200 }, 0)]);
}

#[test]
fn same_range_in_two_units_rejected() {
    let r = Context::new(vec![small_unit(0x100, 0x200), small_unit(0x100, 0x200)]);
    assert_eq!(r.err(), Some(Error::OverlappingUnitRanges));
}

#[test]
fn adjacent_units_accepted() {
    let ctx = Context::new(vec![small_unit(0x100, 0x200), small_unit(0x200, 0x300)]).unwrap();
    assert_eq!(ctx.unit_ranges.len(), 2);
    assert!(ctx.find_location(0x1ff).is_some());
    assert!(ctx.find_location(0x200).is_some());
}

#[test]
fn display_name_prefers_demangled() {
    let d = function(1, Tag::Subprogram, "_ZN5space3fooEibc", 0x10, 0x20);
    let prog = program(0x10, 0x20, vec![row(0x10, 1)]);
    let ctx = Context::new(vec![unit(0x10, HighPc::Addr(0x20), 0x0004, vec![d], prog)]).unwrap();
    let fc = ctx.parse_functions();
    let fs = frames(&fc, 0x10);
    assert_eq!(fs[0].function.as_ref().unwrap().display_name(), "space::foo(int, bool, char)");
    let fs = frames(&foo_context(HighPc::Addr(0x1100)), 0x1010);
    assert_eq!(fs[0].function.as_ref().unwrap().display_name(), "foo");
}
