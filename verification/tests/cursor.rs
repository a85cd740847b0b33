use drgns::Cursor;
use drgns::ErrorHandler;
use drgns::Lexer;
use drgns::Reader;
use drgns::SourceArena;
use drgns::TokenType;

struct VecCursor {
    v: Vec<i32>,
    back: usize,
    front: usize,
    previous: Option<i32>,
}

impl VecCursor {
    pub fn new(v: Vec<i32>) -> Self {
        Self {
            v,
            back: 0,
            front: 0,
            previous: None,
        }
    }
}

impl Cursor<i32, Vec<i32>> for VecCursor {
    fn peek_n(&mut self, i: usize) -> Option<i32> {
        self.v.get(self.front + i).copied()
    }

    fn previous(&self) -> Option<i32> {
        self.previous
    }

    fn peek_back_n(&self, i: usize) -> Option<i32> {
        self.v.get(self.back + i).copied()
    }

    fn window_len(&self) -> usize {
        self.front - self.back
    }

    fn window_is_empty(&self) -> bool {
        self.window_len() == 0
    }

    fn advance(&mut self) -> Option<i32> {
        let ret = self.v.get(self.front);
        self.front += 1;
        self.previous = ret.copied();
        ret.copied()
    }

    fn consume(&mut self) -> Option<Vec<i32>> {
        if self.back >= self.v.len() || self.front >= self.v.len() {
            return None;
        }
        let ret = self.v[self.back..self.front].to_vec();
        self.back = self.front;
        Some(ret)
    }

    fn reset(&mut self) {
        self.front = self.back;
    }
}

#[test]
fn cursor() {
    let mut c = VecCursor::new(vec![1, 2, 3, 4, 5, 6]);
    assert!(c.window_is_empty());
    assert_eq!(c.advance(), Some(1));
    assert_eq!(c.advance(), Some(2));
    assert_eq!(c.previous(), Some(2));
    assert_eq!(c.back(), Some(1));
    assert_eq!(c.consume(), Some(vec![1, 2]));
    assert!(c.window_is_empty());
    assert_eq!(c.advance(), Some(3));
    assert_eq!(c.window_len(), 1);
    c.reset();
    assert_eq!(c.peek_n(2), Some(5));
    assert_eq!(c.advance(), Some(3));
    assert_eq!(c.advance(), Some(4));
    assert_eq!(c.advance(), Some(5));
    assert_eq!(c.peek_back_n(1), Some(4));
    assert_eq!(c.front(), Some(6));
    assert_eq!(c.advance(), Some(6));
}

#[test]
fn lookahead_peek_reset_keeps_committed_position() {
    let mut a = SourceArena::new(21);
    let mut eh = ErrorHandler::new();
    let lx = Lexer::new(Reader::from_arena(&a));
    a.intern("1 + 2".chars().collect());
    let mut la = drgns::lookahead(lx);

    // peeking walks ahead without consuming
    assert_eq!(la.peek(&a, &mut eh).unwrap().token_type, TokenType::IntLit);
    assert_eq!(la.peek(&a, &mut eh).unwrap().token_type, TokenType::Plus);
    la.reset();

    // after the reset, iterating yields the same first token as before
    let t = la.next(&a, &mut eh).unwrap();
    assert_eq!(t.token_type, TokenType::IntLit);
    assert_eq!(
        a.render(&t.lexeme).unwrap().into_iter().collect::<String>(),
        "1"
    );
}

#[test]
fn lookahead_commit_consumes_peeked_tokens() {
    let mut a = SourceArena::new(22);
    let mut eh = ErrorHandler::new();
    let lx = Lexer::new(Reader::from_arena(&a));
    a.intern("1 + 2".chars().collect());
    let mut la = drgns::lookahead(lx);

    assert_eq!(la.peek(&a, &mut eh).unwrap().token_type, TokenType::IntLit);
    la.commit();
    assert_eq!(la.next(&a, &mut eh).unwrap().token_type, TokenType::Plus);
    assert_eq!(la.next(&a, &mut eh).unwrap().token_type, TokenType::IntLit);
    assert!(la.next(&a, &mut eh).is_none());
}
