use c_compiler::{parse, CodeGen};

fn compile(src: &str) -> String {
    let program = parse(src).unwrap();
    let mut g = CodeGen::new();
    g.compile(&program)
}

#[test]
fn compile_minimal() {
    let out = compile("int main() { return 0; }");
    assert_eq!(
        out,
        ".intel_syntax noprefix\n.globl main\n\nmain:\n  push rbp\n  mov rbp, rsp\n  mov eax, 0\n  mov rsp, rbp\n  pop rbp\n  ret\n  xor eax, eax\n  mov rsp, rbp\n  pop rbp\n  ret\n\n"
    );
}

#[test]
fn compile_locals_and_arithmetic() {
    let out = compile("int main() { int x = 5; int y; y = x * -2; return y % 3; }");
    let expected = "\
.intel_syntax noprefix
.globl main

main:
  push rbp
  mov rbp, rsp
  sub rsp, 8  # x
  mov eax, 5
  mov [rbp-8], eax
  sub rsp, 8  # y (uninitialized)
  mov eax, 2
  neg eax
  push rax
  mov eax, [rbp-8]
  pop rcx
  imul eax, ecx
  mov [rbp-16], eax
  mov eax, 3
  push rax
  mov eax, [rbp-16]
  pop rcx
  cdq
  idiv ecx
  mov eax, edx
  mov rsp, rbp
  pop rbp
  ret
  xor eax, eax
  mov rsp, rbp
  pop rbp
  ret

";
    assert_eq!(out, expected);
}

#[test]
fn compile_recursive_fib() {
    let out = compile("int fib(int n) { if (n < 2) { return n; } return fib(n - 1) + fib(n - 2); }");
    let expected = "\
.intel_syntax noprefix
.globl main

fib:
  push rbp
  mov rbp, rsp
  sub rsp, 8
  mov [rbp-8], rdi
  mov eax, 2
  push rax
  mov eax, [rbp-8]
  pop rcx
  cmp eax, ecx
  setl al
  movzx eax, al
  cmp eax, 0
  je endif.2
  mov eax, [rbp-8]
  mov rsp, rbp
  pop rbp
  ret
endif.2:
  mov eax, 2
  push rax
  mov eax, [rbp-8]
  pop rcx
  sub eax, ecx
  push rax
  pop rdi
  call fib
  push rax
  mov eax, 1
  push rax
  mov eax, [rbp-8]
  pop rcx
  sub eax, ecx
  push rax
  pop rdi
  call fib
  pop rcx
  add eax, ecx
  mov rsp, rbp
  pop rbp
  ret
  xor eax, eax
  mov rsp, rbp
  pop rbp
  ret

";
    assert_eq!(out, expected);
}

#[test]
fn compile_while_and_logic_labels() {
    let out = compile("int main() { int i = 0; while (i < 3 || i == 7) { i = i + 1; } return i; }");
    assert!(out.contains("  jmp while_cond.1\nwhile_body.2:\n"));
    assert!(out.contains("while_cond.1:\n"));
    assert!(out.contains("  cmp eax, 0\n  setne al\n  movzx eax, al\n  jne or_skip.3\n"));
    assert!(out.contains("  setne al\n  movzx eax, al\nor_skip.3:\n  cmp eax, 0\n  jne while_body.2\n"));
    assert!(out.contains("  cmp eax, 0\n  jne while_body.2\n"));
}

#[test]
fn compile_for_loop() {
    let out = compile("int main() { for (int i = 0; i < 2; i = i + 1) { } return 0; }");
    assert!(out.contains("  sub rsp, 8  # i\n  mov eax, 0\n  mov [rbp-8], eax\n  jmp for_cond.1\nfor_body.2:\n"));
    assert!(out.contains("for_cond.1:\n"));
    assert!(out.contains("  jne for_body.2\n"));
}

#[test]
fn compile_if_else_labels() {
    let out = compile("int main(int a) { if (a) { return 1; } else { return 2; } }");
    assert!(out.contains("  cmp eax, 0\n  je else.1\n"));
    assert!(out.contains("  jmp endif.2\nelse.1:\n"));
    assert!(out.contains("endif.2:\n"));
}

#[test]
fn compile_many_arguments() {
    let out = compile("int main() { return f(1, 2, 3, 4, 5, 6, 7, 8); }");
    // evaluated last first, each pushed; the first six are popped into
    // their registers and the rest stay on the stack, the seventh lowest
    assert!(out.contains("  mov eax, 8\n  push rax\n  mov eax, 7\n  push rax\n  mov eax, 6\n  push rax\n"));
    assert!(out.contains(
        "  mov eax, 1\n  push rax\n  pop rdi\n  pop rsi\n  pop rdx\n  pop rcx\n  pop r8\n  pop r9\n  call f\n  add rsp, 16\n"
    ));
}

#[test]
fn compile_many_parameters() {
    let out = compile("int f(int a, int b, int c, int d, int e, int g, int h, int k) { int z; return k; }");
    // nothing is pushed, so the parameters' slots are not reserved on entry;
    // the local reserves down to its own slot, below theirs; the eighth
    // parameter is read from the caller's frame
    assert!(out.contains("  mov rbp, rsp\n  mov [rbp-8], rdi\n"));
    assert!(out.contains("  mov [rbp-48], r9\n  sub rsp, 56  # z (uninitialized)\n  mov eax, [rbp+24]\n"));
}

#[test]
fn labels_continue_across_compilations() {
    let program = parse("int main(int a) { while (a) { } }").unwrap();
    let mut g = CodeGen::new();
    let first = g.compile(&program);
    let second = g.compile(&program);
    assert!(first.contains("while_cond.1:"));
    assert!(second.contains("while_cond.3:"));
}

#[test]
fn try_compile_rejects_undeclared_variable() {
    let program = parse("int main() { return x; }").unwrap();
    let mut g = CodeGen::new();
    assert!(g.try_compile(&program).is_none());
    let ok = parse("int main() { int x; return x; }").unwrap();
    assert!(g.try_compile(&ok).is_some());
}

#[test]
fn default_is_new() {
    let program = parse("int main() { return 7; }").unwrap();
    let mut a = CodeGen::default();
    let mut b = CodeGen::new();
    assert_eq!(a.compile(&program), b.compile(&program));
}

#[test]
fn compile_stack_parameter_and_local_slots() {
    let out = compile("int f(int a, int b, int c, int d, int e, int g, int h) { int z = h; return z; }");
    assert!(out.contains("  mov [rbp-48], r9\n  sub rsp, 56  # z\n  mov eax, [rbp+16]\n  mov [rbp-56], eax\n  mov eax, [rbp-56]\n"));
}

#[test]
fn compile_parameter_slot_is_reserved() {
    let out = compile("int f(int a) { return a + 1; }");
    assert!(out.contains(
        "f:\n  push rbp\n  mov rbp, rsp\n  sub rsp, 8\n  mov [rbp-8], rdi\n  mov eax, 1\n  push rax\n  mov eax, [rbp-8]\n"
    ));
}

#[test]
fn compile_branch_locals_get_their_own_slots() {
    let out = compile("int main(int c) { if (c) { int a = 1; } else { int b = 2; } return 0; }");
    // each branch reserves down to its own local, below the parameter's slot
    assert!(out.contains("  sub rsp, 16  # a\n  mov eax, 1\n  mov [rbp-16], eax\n"));
    assert!(out.contains("else.1:\n  sub rsp, 24  # b\n  mov eax, 2\n  mov [rbp-24], eax\n"));
}

#[test]
fn compile_logical_and_short_circuits() {
    let out = compile("int main() { return 2 && 3; }");
    let expected = "\
.intel_syntax noprefix
.globl main

main:
  push rbp
  mov rbp, rsp
  mov eax, 2
  cmp eax, 0
  setne al
  movzx eax, al
  je and_skip.1
  mov eax, 3
  cmp eax, 0
  setne al
  movzx eax, al
and_skip.1:
  mov rsp, rbp
  pop rbp
  ret
  xor eax, eax
  mov rsp, rbp
  pop rbp
  ret

";
    assert_eq!(out, expected);
}

#[test]
fn compile_logical_or_skips_when_true() {
    let out = compile("int main(int a) { return a || f(); }");
    assert!(out.contains(
        "  mov eax, [rbp-8]\n  cmp eax, 0\n  setne al\n  movzx eax, al\n  jne or_skip.1\n  call f\n  cmp eax, 0\n  setne al\n  movzx eax, al\nor_skip.1:\n"
    ));
}

#[test]
fn compile_nested_call_arguments() {
    let out = compile("int main() { return f(1, g(2)); }");
    assert!(out.contains(
        "  mov eax, 2\n  push rax\n  pop rdi\n  call g\n  push rax\n  mov eax, 1\n  push rax\n  pop rdi\n  pop rsi\n  call f\n"
    ));
}

#[test]
fn label_free_program_compiles_alike_on_a_used_emitter() {
    let looping = parse("int main(int a) { while (a) { a = a - 1; } return a; }").unwrap();
    let plain = parse("int g(int x) { int y = x * 2; return g(y) + 1; }").unwrap();
    let mut used = CodeGen::new();
    used.compile(&looping);
    let again = used.compile(&plain);
    let mut fresh = CodeGen::new();
    assert_eq!(again, fresh.compile(&plain));
}

#[test]
fn compile_local_reserved_at_its_declaration() {
    let out = compile("int main() { int x = 5; return x; }");
    assert_eq!(
        out,
        ".intel_syntax noprefix\n.globl main\n\nmain:\n  push rbp\n  mov rbp, rsp\n  sub rsp, 8  # x\n  mov eax, 5\n  mov [rbp-8], eax\n  mov eax, [rbp-8]\n  mov rsp, rbp\n  pop rbp\n  ret\n  xor eax, eax\n  mov rsp, rbp\n  pop rbp\n  ret\n\n"
    );
}

#[test]
fn compile_parameters_without_pushes() {
    let out = compile("int f(int a, int b) {}");
    assert_eq!(
        out,
        ".intel_syntax noprefix\n.globl main\n\nf:\n  push rbp\n  mov rbp, rsp\n  mov [rbp-8], rdi\n  mov [rbp-16], rsi\n  xor eax, eax\n  mov rsp, rbp\n  pop rbp\n  ret\n\n"
    );
}

#[test]
fn compile_local_after_skippable_loop() {
    // the loop body may not run, so the later local reserves down past the
    // body's local as well
    let out = compile("int main() { int i = 0; while (i) { int t; } int z = 1; return z; }");
    assert!(out.contains("  sub rsp, 8  # t (uninitialized)\n"));
    assert!(out.contains("  sub rsp, 16  # z\n  mov eax, 1\n  mov [rbp-24], eax\n"));
}

#[test]
fn fresh_labels_are_numbered_in_turn() {
    let mut g = CodeGen::new();
    let a = g.fresh_label("x");
    let b = g.fresh_label("y");
    assert_eq!(a, "x.1");
    assert_eq!(b, "y.2");
    assert_ne!(a, b);
}
