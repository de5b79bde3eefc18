//! A small SQL select-statement builder: the statement text is pinned down
//! exactly by the builder's recorded fields.

use vstd::prelude::*;
use crate::strutil::append_str;
use crate::strutil::usize_to_string;
use crate::strutil::dec_rep;

verus! {

/// The pieces joined by `sep`, in order.
pub open spec fn join_with(parts: Seq<Seq<char>>, sep: Seq<char>) -> Seq<char>
    decreases parts.len(),
{
    if parts.len() == 0 {
        Seq::empty()
    } else if parts.len() == 1 {
        parts[0]
    } else {
        join_with(parts.drop_last(), sep) + sep + parts.last()
    }
}

/// The views of a list of owned strings.
pub open spec fn str_views(v: Seq<String>) -> Seq<Seq<char>> {
    Seq::new(v.len(), |i: int| v[i]@)
}

/// Builds `SELECT ... FROM ...` statements field by field.
pub struct QueryBuilder {
    table: String,
    select_fields: Vec<String>,
    where_clauses: Vec<String>,
    order_by: Option<String>,
    limit: Option<usize>,
}

impl QueryBuilder {
    /// The table the statement selects from.
    pub closed spec fn spec_table(self) -> Seq<char> {
        self.table@
    }

    /// The selected columns, in order.
    pub closed spec fn spec_fields(self) -> Seq<Seq<char>> {
        str_views(self.select_fields@)
    }

    /// The recorded restriction clauses, in order.
    pub closed spec fn spec_wheres(self) -> Seq<Seq<char>> {
        str_views(self.where_clauses@)
    }

    /// The ordering clause, if one was set.
    pub closed spec fn spec_order(self) -> Option<Seq<char>> {
        match self.order_by {
            None => None,
            Some(o) => Some(o@),
        }
    }

    /// The row limit, if one was set.
    pub closed spec fn spec_limit(self) -> Option<usize> {
        self.limit
    }

    /// Start a query against `table`, selecting every column.
    pub fn new(table: &str) -> (r: QueryBuilder)
        ensures
            r.spec_table() == table@,
            r.spec_fields() =~= seq!["*"@],
            r.spec_wheres() =~= Seq::<Seq<char>>::empty(),
            r.spec_order() is None,
            r.spec_limit() is None,
    {
        let mut select_fields: Vec<String> = Vec::new();
        select_fields.push("*".to_string());
        QueryBuilder {
            table: table.to_string(),
            select_fields,
            where_clauses: Vec::new(),
            order_by: None,
            limit: None,
        }
    }

    /// Replace the selected columns.
    pub fn select(self, fields: &[&str]) -> (r: QueryBuilder)
        ensures
            r.spec_fields().len() == fields@.len(),
            forall|i: int| 0 <= i < fields@.len() ==> r.spec_fields()[i] == (#[trigger] fields@[i])@,
            r.spec_table() == self.spec_table(),
            r.spec_wheres() == self.spec_wheres(),
            r.spec_order() == self.spec_order(),
            r.spec_limit() == self.spec_limit(),
    {
        let mut select_fields: Vec<String> = Vec::new();
        let mut i: usize = 0;
        while i < fields.len()
            invariant
                i <= fields@.len(),
                select_fields@.len() == i,
                forall|j: int|
                    0 <= j < i ==> select_fields@[j]@ == (#[trigger] fields@[j])@,
            decreases fields@.len() - i,
        {
            select_fields.push(fields[i].to_string());
            i += 1;
        }
        QueryBuilder { select_fields, ..self }
    }

    /// Order the result by `field`, descending when asked.
    pub fn order_by(self, field: &str, desc: bool) -> (r: QueryBuilder)
        ensures
            r.spec_order() == Some(
                field@ + (if desc {
                    " DESC"@
                } else {
                    " ASC"@
                }),
            ),
            r.spec_table() == self.spec_table(),
            r.spec_fields() == self.spec_fields(),
            r.spec_wheres() == self.spec_wheres(),
            r.spec_limit() == self.spec_limit(),
    {
        let mut order = field.to_string();
        if desc {
            append_str(&mut order, " DESC");
        } else {
            append_str(&mut order, " ASC");
        }
        QueryBuilder { order_by: Some(order), ..self }
    }

    /// Limit the number of returned rows.
    pub fn limit(self, n: usize) -> (r: QueryBuilder)
        ensures
            r.spec_limit() == Some(n),
            r.spec_table() == self.spec_table(),
            r.spec_fields() == self.spec_fields(),
            r.spec_wheres() == self.spec_wheres(),
            r.spec_order() == self.spec_order(),
    {
        QueryBuilder { limit: Some(n), ..self }
    }

    /// The statement this builder denotes, exactly.
    pub fn build(&self) -> (r: String)
        ensures
            r@ == "SELECT "@ + join_with(self.spec_fields(), ", "@) + " FROM "@
                + self.spec_table() + (if self.spec_wheres().len() > 0 {
                " WHERE "@ + join_with(self.spec_wheres(), " AND "@)
            } else {
                Seq::<char>::empty()
            }) + (match self.spec_order() {
                Some(o) => " ORDER BY "@ + o,
                None => Seq::<char>::empty(),
            }) + (match self.spec_limit() {
                Some(n) => " LIMIT "@ + dec_rep(n as nat),
                None => Seq::<char>::empty(),
            }),
    {
        let mut sql = "SELECT ".to_string();
        Self::append_joined(&mut sql, &self.select_fields, ", ");
        proof {
            assert(sql@ == "SELECT "@ + join_with(self.spec_fields(), ", "@));
        }
        append_str(&mut sql, " FROM ");
        append_str(&mut sql, self.table.as_str());
        let ghost head = sql@;

        if self.where_clauses.len() > 0 {
            append_str(&mut sql, " WHERE ");
            Self::append_joined(&mut sql, &self.where_clauses, " AND ");
            proof {
                assert(sql@ =~= head + (" WHERE "@ + join_with(self.spec_wheres(), " AND "@)));
            }
        } else {
            proof {
                assert(sql@ =~= head + Seq::<char>::empty());
            }
        }
        let ghost mid = sql@;

        match &self.order_by {
            Some(order) => {
                append_str(&mut sql, " ORDER BY ");
                append_str(&mut sql, order.as_str());
                proof {
                    assert(sql@ =~= mid + (" ORDER BY "@ + order@));
                }
            },
            None => {
                proof {
                    assert(sql@ =~= mid + Seq::<char>::empty());
                }
            },
        }
        let ghost tail = sql@;

        match self.limit {
            Some(n) => {
                append_str(&mut sql, " LIMIT ");
                let digits = usize_to_string(n);
                append_str(&mut sql, digits.as_str());
                proof {
                    assert(sql@ =~= tail + (" LIMIT "@ + dec_rep(n as nat)));
                }
            },
            None => {
                proof {
                    assert(sql@ =~= tail + Seq::<char>::empty());
                }
            },
        }
        sql
    }

    /// Append the parts separated by `sep`.
    fn append_joined(sql: &mut String, parts: &Vec<String>, sep: &str)
        ensures
            final(sql)@ == old(sql)@ + join_with(str_views(parts@), sep@),
    {
        let n = parts.len();
        let mut j: usize = 0;
        proof {
            assert(str_views(parts@).take(0) =~= Seq::<Seq<char>>::empty());
        }
        while j < n
            invariant
                n == parts@.len(),
                j <= n,
                sql@ == old(sql)@ + join_with(str_views(parts@).take(j as int), sep@),
            decreases n - j,
        {
            let ghost pre = sql@;
            if j > 0 {
                append_str(sql, sep);
            }
            append_str(sql, parts[j].as_str());
            proof {
                let ws = str_views(parts@);
                assert(ws.take(j + 1) =~= ws.take(j as int).push(ws[j as int]));
                assert(ws.take(j + 1).drop_last() =~= ws.take(j as int));
                if j == 0 {
                    assert(join_with(ws.take(1), sep@) == ws[0]);
                    assert(sql@ =~= old(sql)@ + join_with(ws.take(1), sep@));
                } else {
                    assert(join_with(ws.take(j + 1), sep@) == join_with(ws.take(j as int), sep@)
                        + sep@ + ws[j as int]);
                    assert(sql@ =~= old(sql)@ + join_with(ws.take(j + 1), sep@));
                }
            }
            j += 1;
        }
        proof {
            assert(str_views(parts@).take(n as int) =~= str_views(parts@));
        }
    }
}

} // verus!
