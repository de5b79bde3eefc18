//! Data model of the blog engine: stored records and the request bodies the
//! handlers accept. Serialization and validation live with the surrounding
//! application; the library holds the bare data.

use vstd::prelude::*;

verus! {

/// A registered author or administrator.
#[derive(Debug, Clone)]
pub struct User {
    pub id: String,
    pub username: String,
    pub email: String,
    pub password_hash: String,
    pub is_admin: bool,
    pub created_at: String,
}

/// A published or draft article.
#[derive(Debug, Clone)]
pub struct Post {
    pub id: String,
    pub title: String,
    pub slug: String,
    pub content: String,
    pub summary: String,
    pub author_id: String,
    pub published: bool,
    pub created_at: String,
    pub updated_at: String,
}

/// A reader comment awaiting or past moderation.
#[derive(Debug, Clone)]
pub struct Comment {
    pub id: String,
    pub post_id: String,
    pub author_name: String,
    pub author_email: String,
    pub content: String,
    pub approved: bool,
    pub created_at: String,
}

/// Body of an account-creation request.
#[derive(Debug)]
pub struct RegisterRequest {
    pub username: String,
    pub email: String,
    pub password: String,
}

/// Body of a login request.
#[derive(Debug)]
pub struct LoginRequest {
    pub username: String,
    pub password: String,
}

/// Body of a post-creation request.
#[derive(Debug)]
pub struct CreatePostRequest {
    pub title: String,
    pub content: String,
    pub summary: String,
    pub published: bool,
}

/// Body of a comment-creation request.
#[derive(Debug)]
pub struct CreateCommentRequest {
    pub author_name: String,
    pub author_email: String,
    pub content: String,
}

/// The authenticated claims carried by a session token.
#[derive(Debug)]
pub struct Claims {
    pub sub: String,
    pub username: String,
    pub is_admin: bool,
    pub exp: usize,
}

} // verus!
